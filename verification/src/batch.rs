//! Planning of a batch run over a directory of CSV files.
//!
//! The directory walk and the file I/O stay outside; this module decides,
//! from a file name alone, whether the file is an input to process and what
//! the output blob is called: files with no extension and files already
//! bearing the blob extension are skipped, any other file is processed into
//! `<stem>.bin`.

use vstd::prelude::*;

verus! {

/// The blob extension, as bytes: `bin`.
pub open spec fn bin_extension() -> Seq<u8> {
    seq![98u8, 105u8, 110u8]
}

/// `.bin`, as bytes.
pub open spec fn dot_bin() -> Seq<u8> {
    seq![46u8, 98u8, 105u8, 110u8]
}

/// The index of the last `.` in a name, or `-1` when there is none.
pub open spec fn last_dot(name: Seq<u8>) -> int
    decreases name.len(),
{
    if name.len() == 0 {
        -1
    } else if name.last() == 46 {
        name.len() - 1
    } else {
        last_dot(name.drop_last())
    }
}

/// What to do with one directory entry: `None` to skip it (no extension, or
/// already a blob), or the name of the blob to produce. A leading dot alone
/// does not make an extension.
pub open spec fn plan_action(name: Seq<u8>) -> Option<Seq<u8>> {
    let d = last_dot(name);
    if d <= 0 {
        None
    } else if name.skip(d + 1) == bin_extension() {
        None
    } else {
        Some(name.take(d) + dot_bin())
    }
}

/// `last_dot` finds the last dot: everything after it is dot-free.
proof fn lemma_last_dot_char(name: Seq<u8>, d: int)
    requires
        -1 <= d < name.len(),
        d >= 0 ==> name[d] == 46,
        forall|m: int| d < m < name.len() ==> name[m] != 46,
    ensures
        last_dot(name) == d,
    decreases name.len(),
{
    if name.len() == 0 {
    } else if name.last() == 46 {
        assert(d == name.len() - 1);
    } else {
        assert(d < name.len() - 1);
        lemma_last_dot_char(name.drop_last(), d);
    }
}

/// Finds the index of the last dot in a name, scanning from the end.
fn find_last_dot(name: &Vec<u8>) -> (r: Option<usize>)
    ensures
        (r matches Some(d) ==> d < name@.len() && last_dot(name@) == d),
        r is None ==> last_dot(name@) == -1,
{
    let n: usize = name.len();
    let mut j: usize = n;
    while j > 0
        invariant
            j <= n,
            n == name@.len(),
            forall|m: int| j <= m < n ==> name@[m] != 46,
        decreases j,
    {
        j = j - 1;
        if name[j] == 46 {
            proof {
                lemma_last_dot_char(name@, j as int);
            }
            return Some(j);
        }
    }
    proof {
        lemma_last_dot_char(name@, -1);
    }
    None
}

/// Decides one file: `None` to skip, or the output blob name.
pub fn plan_file(name: &Vec<u8>) -> (r: Option<Vec<u8>>)
    ensures
        (r matches Some(out) ==> plan_action(name@) == Some(out@)),
        r is None <==> plan_action(name@) is None,
{
    let n: usize = name.len();
    let dot: usize = match find_last_dot(name) {
        Some(d) => d,
        None => {
            return None;
        },
    };
    if dot == 0 {
        return None;
    }
    // is the extension exactly `bin`?
    if n - dot - 1 == 3 {
        if name[dot + 1] == 98 && name[dot + 2] == 105 && name[dot + 3] == 110 {
            proof {
                assert(name@.skip(dot + 1) =~= bin_extension());
            }
            return None;
        }
    }
    proof {
        assert(name@.skip(dot + 1).len() == n - dot - 1);
        if name@.skip(dot + 1) == bin_extension() {
            assert(name@.skip(dot + 1)[0] == name@[dot + 1]);
            assert(name@.skip(dot + 1)[1] == name@[dot + 2]);
            assert(name@.skip(dot + 1)[2] == name@[dot + 3]);
            assert(false);
        }
    }
    // output name: stem + ".bin"
    let mut out: Vec<u8> = Vec::new();
    let mut i: usize = 0;
    while i < dot
        invariant
            i <= dot,
            dot < n,
            n == name@.len(),
            out@ == name@.take(i as int),
        decreases dot - i,
    {
        out.push(name[i]);
        assert(name@.take(i + 1) == name@.take(i as int).push(name@[i as int]));
        i = i + 1;
    }
    out.push(46);
    out.push(98);
    out.push(105);
    out.push(110);
    proof {
        assert(out@ =~= name@.take(dot as int) + dot_bin());
    }
    Some(out)
}

} // verus!
