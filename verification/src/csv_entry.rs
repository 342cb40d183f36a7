//! Raw claim rows as read from a CSV file.

use vstd::prelude::*;

use crate::amount::{UiAmount, UiAmountView};
use crate::error::MerkleTreeError;

verus! {

/// Mathematical view of a [`CsvEntry`].
pub struct CsvEntryView {
    pub pubkey: Seq<u8>,
    pub amount_unlocked: UiAmountView,
    pub amount_locked: UiAmountView,
    pub amount: Option<UiAmountView>,
}

impl CsvEntryView {
    /// All amount digits are decimal digits.
    pub open spec fn wf(self) -> bool {
        &&& self.amount_unlocked.wf()
        &&& self.amount_locked.wf()
        &&& (self.amount matches Some(a) ==> a.wf())
    }
}

/// The unlocked amount once the legacy single-amount fallback is applied: a
/// row whose `amount` column is set while both split amounts are zero means
/// its `amount` as the unlocked amount.
pub open spec fn effective_unlocked(e: CsvEntryView) -> UiAmountView {
    match e.amount {
        Some(a) => if e.amount_unlocked.is_zero() && e.amount_locked.is_zero() {
            a
        } else {
            e.amount_unlocked
        },
        None => e.amount_unlocked,
    }
}

/// One CSV row: a claimant pubkey string (as bytes) and its UI amounts.
#[derive(Debug)]
pub struct CsvEntry {
    /// Pubkey of the claimant; will be responsible for signing the claim.
    pub pubkey: Vec<u8>,
    /// Amount unlocked immediately (UI amount).
    pub amount_unlocked: UiAmount,
    /// Amount locked for vesting (UI amount).
    pub amount_locked: UiAmount,
    /// Legacy single-amount column; when present and both split amounts are
    /// zero it is adopted as the unlocked amount.
    pub amount: Option<UiAmount>,
}

impl View for CsvEntry {
    type V = CsvEntryView;

    open spec fn view(&self) -> CsvEntryView {
        CsvEntryView {
            pubkey: self.pubkey@,
            amount_unlocked: self.amount_unlocked@,
            amount_locked: self.amount_locked@,
            amount: match self.amount {
                Some(a) => Some(a@),
                None => None,
            },
        }
    }
}

impl CsvEntry {
    /// The unlocked amount column of this row.
    pub fn unlocked_amount(&self) -> (r: UiAmount)
        ensures
            r@ == self@.amount_unlocked,
    {
        self.amount_unlocked.clone()
    }

    /// The locked amount column of this row.
    pub fn locked_amount(&self) -> (r: UiAmount)
        ensures
            r@ == self@.amount_locked,
    {
        self.amount_locked.clone()
    }
}


// ---------------------------------------------------------------------------
// The CSV dialect, specified over bytes.
//
// Records are separated by a line feed; a carriage return before the line
// feed is stripped; a trailing newline adds no record. Fields are separated
// by commas and taken verbatim (the airdrop data uses no quoting). The first
// record is the header: its column names must be drawn from `pubkey`,
// `amount_unlocked`, `amount_locked` and `amount`, without repetition, and
// `pubkey` must be present; the other three default to absent. Every data
// record must have exactly as many fields as the header. An amount is an
// unsigned decimal numeral with an optional fraction (`10`, `0.5`, `.5`,
// `1.`), with at least one digit; an empty legacy `amount` field means the
// column is unset for that row.
// ---------------------------------------------------------------------------

/// The index of the first occurrence of `c`, or the length when absent.
pub open spec fn find_byte(b: Seq<u8>, c: u8) -> int
    decreases b.len(),
{
    if b.len() == 0 {
        0
    } else if b[0] == c {
        0
    } else {
        1 + find_byte(b.skip(1), c)
    }
}

/// Strips one trailing carriage return.
pub open spec fn strip_cr(l: Seq<u8>) -> Seq<u8> {
    if l.len() > 0 && l.last() == 13 {
        l.drop_last()
    } else {
        l
    }
}

/// Splits bytes into records at line feeds.
pub open spec fn split_lines(b: Seq<u8>) -> Seq<Seq<u8>>
    decreases b.len(),
{
    if b.len() == 0 {
        Seq::<Seq<u8>>::empty()
    } else {
        let k = find_byte(b, 10);
        if 0 <= k < b.len() {
            seq![strip_cr(b.take(k))] + split_lines(b.skip(k + 1))
        } else {
            seq![strip_cr(b)]
        }
    }
}

/// Splits a record into fields at commas; always at least one field.
pub open spec fn split_fields(l: Seq<u8>) -> Seq<Seq<u8>>
    decreases l.len(),
{
    let k = find_byte(l, 44);
    if 0 <= k < l.len() {
        seq![l.take(k)] + split_fields(l.skip(k + 1))
    } else {
        seq![l]
    }
}

/// The header name `pubkey`.
pub open spec fn col_pubkey() -> Seq<u8> {
    seq![112u8, 117u8, 98u8, 107u8, 101u8, 121u8]
}

/// The header name `amount_unlocked`.
pub open spec fn col_amount_unlocked() -> Seq<u8> {
    seq![
        97u8,
        109u8,
        111u8,
        117u8,
        110u8,
        116u8,
        95u8,
        117u8,
        110u8,
        108u8,
        111u8,
        99u8,
        107u8,
        101u8,
        100u8,
    ]
}

/// The header name `amount_locked`.
pub open spec fn col_amount_locked() -> Seq<u8> {
    seq![97u8, 109u8, 111u8, 117u8, 110u8, 116u8, 95u8, 108u8, 111u8, 99u8, 107u8, 101u8, 100u8]
}

/// The header name `amount`.
pub open spec fn col_amount() -> Seq<u8> {
    seq![97u8, 109u8, 111u8, 117u8, 110u8, 116u8]
}

/// An ASCII decimal digit.
pub open spec fn is_digit(c: u8) -> bool {
    48 <= c <= 57
}

/// Every byte is a digit.
pub open spec fn all_digits(s: Seq<u8>) -> bool {
    forall|i: int| 0 <= i < s.len() ==> is_digit(#[trigger] s[i])
}

/// The value of a digit string read as a decimal numeral.
pub open spec fn digits_val(s: Seq<u8>) -> nat
    decreases s.len(),
{
    if s.len() == 0 {
        0
    } else {
        (digits_val(s.drop_last()) * 10 + (s.last() - 48)) as nat
    }
}

/// The digit values of a digit string.
pub open spec fn digit_seq(s: Seq<u8>) -> Seq<u8> {
    s.map_values(|c: u8| (c - 48) as u8)
}

/// The zero amount.
pub open spec fn zero_amount() -> UiAmountView {
    UiAmountView { int_part: 0, frac: Seq::<u8>::empty() }
}

/// Parses an amount field: an optional integer part, an optional dot, an
/// optional fraction, at least one digit in all, and an integer part that
/// fits an unsigned 64-bit value.
pub open spec fn parse_amount_spec(f: Seq<u8>) -> Option<UiAmountView> {
    if f.len() == 0 {
        None
    } else {
        let dot = find_byte(f, 46);
        if dot == f.len() {
            if all_digits(f) && digits_val(f) <= u64::MAX {
                Some(UiAmountView { int_part: digits_val(f) as u64, frac: Seq::<u8>::empty() })
            } else {
                None
            }
        } else {
            let ip = f.take(dot);
            let fp = f.skip(dot + 1);
            if ip.len() + fp.len() >= 1 && all_digits(ip) && all_digits(fp) && digits_val(ip)
                <= u64::MAX {
                Some(UiAmountView { int_part: digits_val(ip) as u64, frac: digit_seq(fp) })
            } else {
                None
            }
        }
    }
}

/// The header contains this column name.
pub open spec fn has_col(h: Seq<Seq<u8>>, x: Seq<u8>) -> bool {
    exists|i: int| 0 <= i < h.len() && h[i] == x
}

/// The index of the first occurrence of `x`, or the length when absent.
pub open spec fn first_index(h: Seq<Seq<u8>>, x: Seq<u8>) -> int
    decreases h.len(),
{
    if h.len() == 0 {
        0
    } else if h[0] == x {
        0
    } else {
        1 + first_index(h.skip(1), x)
    }
}

/// A valid header: every name known, no name repeated, `pubkey` present.
pub open spec fn header_ok(h: Seq<Seq<u8>>) -> bool {
    &&& forall|i: int|
        0 <= i < h.len() ==> (#[trigger] h[i] == col_pubkey() || h[i] == col_amount_unlocked()
            || h[i] == col_amount_locked() || h[i] == col_amount())
    &&& forall|i: int, j: int| #![trigger h[i], h[j]] 0 <= i < j < h.len() ==> h[i] != h[j]
    &&& has_col(h, col_pubkey())
}

/// The column positions read off a valid header.
pub struct HeaderView {
    pub ncols: int,
    pub pubkey: int,
    pub unlocked: Option<int>,
    pub locked: Option<int>,
    pub amount: Option<int>,
}

/// The positions of the known columns, or `None` for an invalid header.
pub open spec fn header_cols(h: Seq<Seq<u8>>) -> Option<HeaderView> {
    if header_ok(h) {
        Some(
            HeaderView {
                ncols: h.len() as int,
                pubkey: first_index(h, col_pubkey()),
                unlocked: if has_col(h, col_amount_unlocked()) {
                    Some(first_index(h, col_amount_unlocked()))
                } else {
                    None
                },
                locked: if has_col(h, col_amount_locked()) {
                    Some(first_index(h, col_amount_locked()))
                } else {
                    None
                },
                amount: if has_col(h, col_amount()) {
                    Some(first_index(h, col_amount()))
                } else {
                    None
                },
            },
        )
    } else {
        None
    }
}

/// An amount column's value for a row: zero when the column is absent.
pub open spec fn get_amount(col: Option<int>, fs: Seq<Seq<u8>>) -> Option<UiAmountView> {
    match col {
        None => Some(zero_amount()),
        Some(i) => parse_amount_spec(fs[i]),
    }
}

/// The legacy single-amount fallback, applied to a parsed row.
pub open spec fn apply_legacy(e: CsvEntryView) -> CsvEntryView {
    match e.amount {
        Some(a) => if e.amount_unlocked.is_zero() && e.amount_locked.is_zero() {
            CsvEntryView { amount_unlocked: a, ..e }
        } else {
            e
        },
        None => e,
    }
}

/// Parses one data record against the header columns.
pub open spec fn parse_row_spec(cols: HeaderView, fs: Seq<Seq<u8>>) -> Option<CsvEntryView> {
    if fs.len() != cols.ncols {
        None
    } else if fs[cols.pubkey].len() == 0 {
        None
    } else {
        match (get_amount(cols.unlocked, fs), get_amount(cols.locked, fs)) {
            (Some(u), Some(l)) => {
                let base = CsvEntryView {
                    pubkey: fs[cols.pubkey],
                    amount_unlocked: u,
                    amount_locked: l,
                    amount: None,
                };
                match cols.amount {
                    None => Some(apply_legacy(base)),
                    Some(ai) => if fs[ai].len() == 0 {
                        Some(apply_legacy(base))
                    } else {
                        match parse_amount_spec(fs[ai]) {
                            Some(a) => Some(
                                apply_legacy(CsvEntryView { amount: Some(a), ..base }),
                            ),
                            None => None,
                        }
                    },
                }
            },
            _ => None,
        }
    }
}

/// Parses the data records in order; any bad record fails the file.
pub open spec fn parse_rows(cols: HeaderView, rows: Seq<Seq<u8>>) -> Option<Seq<CsvEntryView>>
    decreases rows.len(),
{
    if rows.len() == 0 {
        Some(Seq::<CsvEntryView>::empty())
    } else {
        match parse_row_spec(cols, split_fields(rows[0])) {
            None => None,
            Some(e) => match parse_rows(cols, rows.skip(1)) {
                None => None,
                Some(es) => Some(seq![e] + es),
            },
        }
    }
}

/// Parses a whole CSV file. A file with no data records parses to an empty
/// row sequence; a file with data records needs a valid header.
pub open spec fn parse_csv_spec(b: Seq<u8>) -> Option<Seq<CsvEntryView>> {
    let lines = split_lines(b);
    if lines.len() <= 1 {
        Some(Seq::<CsvEntryView>::empty())
    } else {
        match header_cols(split_fields(lines[0])) {
            None => None,
            Some(cols) => parse_rows(cols, lines.skip(1)),
        }
    }
}

/// The views of a sequence of rows.
pub open spec fn entry_views(s: Seq<CsvEntry>) -> Seq<CsvEntryView> {
    s.map_values(|e: CsvEntry| e@)
}


/// The views of a sequence of byte vectors.
pub open spec fn byte_views(s: Seq<Vec<u8>>) -> Seq<Seq<u8>> {
    s.map_values(|v: Vec<u8>| v@)
}

/// `find_byte` returns the position of the first occurrence.
proof fn lemma_find_byte_char(s: Seq<u8>, c: u8, k: int)
    requires
        0 <= k <= s.len(),
        forall|m: int| 0 <= m < k ==> s[m] != c,
        k < s.len() ==> s[k] == c,
    ensures
        find_byte(s, c) == k,
    decreases k,
{
    if k == 0 {
    } else {
        assert(s[0] != c);
        lemma_find_byte_char(s.skip(1), c, k - 1);
    }
}

/// `first_index` returns the position of the first occurrence.
proof fn lemma_first_index_char(h: Seq<Seq<u8>>, x: Seq<u8>, k: int)
    requires
        0 <= k < h.len(),
        forall|m: int| 0 <= m < k ==> h[m] != x,
        h[k] == x,
    ensures
        first_index(h, x) == k,
    decreases k,
{
    if k == 0 {
    } else {
        assert(h[0] != x);
        lemma_first_index_char(h.skip(1), x, k - 1);
    }
}

/// Scans for `c` from `start`; returns the first position, or the length.
fn find_byte_from(b: &Vec<u8>, start: usize, c: u8) -> (k: usize)
    requires
        start <= b@.len(),
    ensures
        start <= k <= b@.len(),
        find_byte(b@.skip(start as int), c) == k - start,
        k < b@.len() ==> b@[k as int] == c,
        forall|m: int| start <= m < k ==> b@[m] != c,
{
    let n: usize = b.len();
    let mut k: usize = start;
    while k < n
        invariant
            start <= k <= n,
            n == b@.len(),
            forall|m: int| start <= m < k ==> b@[m] != c,
        decreases n - k,
    {
        if b[k] == c {
            proof {
                lemma_find_byte_char(b@.skip(start as int), c, k - start);
            }
            return k;
        }
        k = k + 1;
    }
    proof {
        lemma_find_byte_char(b@.skip(start as int), c, (n - start) as int);
    }
    n
}

/// Copies the bytes in `[i, j)` into a fresh vector.
fn copy_range(b: &Vec<u8>, i: usize, j: usize) -> (r: Vec<u8>)
    requires
        i <= j <= b@.len(),
    ensures
        r@ == b@.subrange(i as int, j as int),
{
    let mut r: Vec<u8> = Vec::new();
    let mut m: usize = i;
    while m < j
        invariant
            i <= m <= j <= b@.len(),
            r@ == b@.subrange(i as int, m as int),
        decreases j - m,
    {
        r.push(b[m]);
        assert(b@.subrange(i as int, m + 1) == b@.subrange(i as int, m as int).push(b@[m as int]));
        m = m + 1;
    }
    r
}

/// Byte-for-byte equality of two byte vectors.
fn bytes_eq(a: &Vec<u8>, b: &Vec<u8>) -> (r: bool)
    ensures
        r == (a@ == b@),
{
    if a.len() != b.len() {
        return false;
    }
    let mut i: usize = 0;
    while i < a.len()
        invariant
            i <= a@.len(),
            a@.len() == b@.len(),
            forall|m: int| 0 <= m < i ==> a@[m] == b@[m],
        decreases a@.len() - i,
    {
        if a[i] != b[i] {
            assert(a@[i as int] != b@[i as int]);
            return false;
        }
        i = i + 1;
    }
    assert(a@ =~= b@);
    true
}

/// The bytes of the header name `pubkey`.
fn pubkey_name() -> (r: Vec<u8>)
    ensures
        r@ == col_pubkey(),
{
    let mut v: Vec<u8> = Vec::new();
    v.push(112);
    v.push(117);
    v.push(98);
    v.push(107);
    v.push(101);
    v.push(121);
    assert(v@ =~= col_pubkey());
    v
}

/// The bytes of the header name `amount_unlocked`.
fn unlocked_name() -> (r: Vec<u8>)
    ensures
        r@ == col_amount_unlocked(),
{
    let mut v: Vec<u8> = amount_name();
    v.push(95);
    v.push(117);
    v.push(110);
    v.push(108);
    v.push(111);
    v.push(99);
    v.push(107);
    v.push(101);
    v.push(100);
    assert(v@ =~= col_amount_unlocked());
    v
}

/// The bytes of the header name `amount_locked`.
fn locked_name() -> (r: Vec<u8>)
    ensures
        r@ == col_amount_locked(),
{
    let mut v: Vec<u8> = amount_name();
    v.push(95);
    v.push(108);
    v.push(111);
    v.push(99);
    v.push(107);
    v.push(101);
    v.push(100);
    assert(v@ =~= col_amount_locked());
    v
}

/// The bytes of the header name `amount`.
fn amount_name() -> (r: Vec<u8>)
    ensures
        r@ == col_amount(),
{
    let mut v: Vec<u8> = Vec::new();
    v.push(97);
    v.push(109);
    v.push(111);
    v.push(117);
    v.push(110);
    v.push(116);
    assert(v@ =~= col_amount());
    v
}

/// Splits the input into records at line feeds.
fn split_lines_exec(b: &Vec<u8>) -> (r: Vec<Vec<u8>>)
    ensures
        byte_views(r@) == split_lines(b@),
{
    let n: usize = b.len();
    let mut acc: Vec<Vec<u8>> = Vec::new();
    let mut start: usize = 0;
    proof {
        assert(b@.skip(0) =~= b@);
        assert(byte_views(acc@) + split_lines(b@.skip(0)) =~= split_lines(b@));
    }
    while start < n
        invariant
            start <= n,
            n == b@.len(),
            split_lines(b@) == byte_views(acc@) + split_lines(b@.skip(start as int)),
        decreases n - start,
    {
        let k: usize = find_byte_from(b, start, 10);
        let line_end: usize = if k > start && b[k - 1] == 13 {
            k - 1
        } else {
            k
        };
        let line: Vec<u8> = copy_range(b, start, line_end);
        let ghost old_acc: Seq<Vec<u8>> = acc@;
        acc.push(line);
        proof {
            let s = b@.skip(start as int);
            let kk: int = k - start;
            assert(s.len() == n - start);
            assert(find_byte(s, 10) == kk);
            assert(s.take(kk) =~= b@.subrange(start as int, k as int));
            if k > start && b@[k - 1] == 13 {
                assert(s.take(kk).last() == b@[k - 1]);
                assert(s.take(kk).drop_last() =~= b@.subrange(start as int, k - 1));
                assert(strip_cr(s.take(kk)) == b@.subrange(start as int, line_end as int));
            } else {
                assert(strip_cr(s.take(kk)) == b@.subrange(start as int, line_end as int));
            }
            assert(byte_views(acc@) =~= byte_views(old_acc).push(b@.subrange(
                start as int,
                line_end as int,
            )));
            if k < n {
                assert(s.skip(kk + 1) =~= b@.skip(k + 1));
                assert(split_lines(s) == seq![strip_cr(s.take(kk))] + split_lines(b@.skip(k + 1)));
                assert(byte_views(old_acc) + (seq![strip_cr(s.take(kk))] + split_lines(
                    b@.skip(k + 1),
                )) =~= byte_views(acc@) + split_lines(b@.skip(k + 1)));
            } else {
                assert(kk == s.len());
                assert(s.take(kk) =~= s);
                assert(split_lines(s) == seq![strip_cr(s)]);
                assert(b@.skip(n as int).len() == 0);
                assert(split_lines(b@.skip(n as int)) == Seq::<Seq<u8>>::empty());
                assert(byte_views(old_acc) + seq![strip_cr(s)] =~= byte_views(acc@) + split_lines(
                    b@.skip(n as int),
                ));
            }
        }
        start = if k < n {
            k + 1
        } else {
            n
        };
    }
    proof {
        assert(b@.skip(start as int).len() == 0);
        assert(split_lines(b@.skip(start as int)) == Seq::<Seq<u8>>::empty());
        assert(byte_views(acc@) + Seq::<Seq<u8>>::empty() =~= byte_views(acc@));
    }
    acc
}

/// Splits one record into fields at commas.
fn split_fields_exec(l: &Vec<u8>) -> (r: Vec<Vec<u8>>)
    ensures
        byte_views(r@) == split_fields(l@),
{
    let n: usize = l.len();
    let mut acc: Vec<Vec<u8>> = Vec::new();
    let mut start: usize = 0;
    let mut done: bool = false;
    proof {
        assert(l@.skip(0) =~= l@);
        assert(byte_views(acc@) + split_fields(l@.skip(0)) =~= split_fields(l@));
    }
    while !done
        invariant
            start <= n,
            n == l@.len(),
            !done ==> split_fields(l@) == byte_views(acc@) + split_fields(l@.skip(start as int)),
            done ==> split_fields(l@) == byte_views(acc@),
        decreases n - start + (if done {
            0int
        } else {
            1int
        }),
    {
        let k: usize = find_byte_from(l, start, 44);
        let field: Vec<u8> = copy_range(l, start, k);
        let ghost old_acc: Seq<Vec<u8>> = acc@;
        acc.push(field);
        proof {
            let s = l@.skip(start as int);
            let kk: int = k - start;
            assert(find_byte(s, 44) == kk);
            assert(s.take(kk) =~= l@.subrange(start as int, k as int));
            assert(byte_views(acc@) =~= byte_views(old_acc).push(l@.subrange(
                start as int,
                k as int,
            )));
            if k < n {
                assert(s.skip(kk + 1) =~= l@.skip(k + 1));
                assert(split_fields(s) == seq![s.take(kk)] + split_fields(l@.skip(k + 1)));
                assert(byte_views(old_acc) + (seq![s.take(kk)] + split_fields(l@.skip(k + 1)))
                    =~= byte_views(acc@) + split_fields(l@.skip(k + 1)));
            } else {
                assert(kk == s.len());
                assert(split_fields(s) == seq![s]);
                assert(s =~= l@.subrange(start as int, k as int));
                assert(byte_views(old_acc) + seq![s] =~= byte_views(acc@));
            }
        }
        if k < n {
            start = k + 1;
        } else {
            done = true;
        }
    }
    acc
}

/// One more digit multiplies the running value by ten.
proof fn lemma_digits_take_step(s: Seq<u8>, i: int)
    requires
        0 <= i < s.len(),
    ensures
        digits_val(s.take(i + 1)) == (digits_val(s.take(i)) * 10 + (s[i] - 48)) as nat,
{
    assert(s.take(i + 1).drop_last() =~= s.take(i));
    assert(s.take(i + 1).last() == s[i]);
}

/// A digit string is worth at least any of its prefixes.
proof fn lemma_digits_val_mono(s: Seq<u8>, i: int)
    requires
        0 <= i <= s.len(),
        forall|m: int| i <= m < s.len() ==> is_digit(#[trigger] s[m]),
    ensures
        digits_val(s) >= digits_val(s.take(i)),
    decreases s.len() - i,
{
    if i == s.len() {
        assert(s.take(i) =~= s);
    } else {
        lemma_digits_take_step(s, i);
        assert(is_digit(s[i]));
        assert(digits_val(s.take(i + 1)) >= digits_val(s.take(i))) by (nonlinear_arith)
            requires
                digits_val(s.take(i + 1)) == (digits_val(s.take(i)) * 10 + (s[i] - 48)) as nat,
                s[i] >= 48,
        ;
        lemma_digits_val_mono(s, i + 1);
    }
}

/// Parses one amount field into its exact decimal digits.
fn parse_amount_exec(f: &Vec<u8>) -> (r: Option<UiAmount>)
    ensures
        r is Some <==> parse_amount_spec(f@) is Some,
        (r matches Some(a) ==> parse_amount_spec(f@) == Some(a@) && a@.wf()),
{
    let n: usize = f.len();
    if n == 0 {
        return None;
    }
    let dot: usize = find_byte_from(f, 0, 46);
    proof {
        assert(f@.skip(0) =~= f@);
        assert(find_byte(f@, 46) == dot);
    }
    let ghost ip: Seq<u8> = if dot < n {
        f@.take(dot as int)
    } else {
        f@
    };
    proof {
        if dot == n {
            assert(f@.take(dot as int) =~= f@);
        }
        assert(ip =~= f@.take(dot as int));
    }
    let mut acc: u64 = 0;
    let mut i: usize = 0;
    while i < dot
        invariant
            i <= dot <= n,
            n == f@.len(),
            dot == find_byte(f@, 46),
            ip == f@.take(dot as int),
            forall|m: int| 0 <= m < i ==> is_digit(#[trigger] f@[m]),
            acc == digits_val(f@.take(i as int)),
        decreases dot - i,
    {
        let c: u8 = f[i];
        if c < 48 || c > 57 {
            proof {
                assert(!is_digit(f@[i as int]));
                assert(ip[i as int] == f@[i as int]);
                assert(!all_digits(ip));
                if dot == n {
                    assert(!all_digits(f@));
                }
            }
            return None;
        }
        proof {
            lemma_digits_take_step(f@, i as int);
        }
        let d: u64 = (c - 48) as u64;
        let acc10: u64 = match acc.checked_mul(10) {
            Some(x) => x,
            None => {
                proof {
                    assert(digits_val(f@.take(i + 1)) > u64::MAX);
                    if all_digits(ip) {
                        assert(i + 1 <= ip.len());
                        assert(ip.take(i + 1) =~= f@.take(i + 1));
                        lemma_digits_val_mono(ip, i + 1);
                        assert(digits_val(ip) > u64::MAX);
                    }
                    if dot == n {
                        assert(f@.take(dot as int) =~= f@);
                    }
                    assert(parse_amount_spec(f@) is None);
                }
                return None;
            },
        };
        let acc2: u64 = match acc10.checked_add(d) {
            Some(x) => x,
            None => {
                proof {
                    assert(digits_val(f@.take(i + 1)) > u64::MAX);
                    if all_digits(ip) {
                        assert(i + 1 <= ip.len());
                        assert(ip.take(i + 1) =~= f@.take(i + 1));
                        lemma_digits_val_mono(ip, i + 1);
                        assert(digits_val(ip) > u64::MAX);
                    }
                    if dot == n {
                        assert(f@.take(dot as int) =~= f@);
                    }
                    assert(parse_amount_spec(f@) is None);
                }
                return None;
            },
        };
        acc = acc2;
        i = i + 1;
    }
    proof {
        assert(acc == digits_val(ip));
        assert(all_digits(ip));
    }
    if dot == n {
        let r = UiAmount { int_part: acc, frac: Vec::new() };
        proof {
            assert(r@ == (UiAmountView { int_part: acc, frac: Seq::<u8>::empty() }));
        }
        return Some(r);
    }
    if dot == 0 && n == 1 {
        proof {
            let fp = f@.skip(dot + 1);
            assert(ip.len() + fp.len() == 0);
        }
        return None;
    }
    let mut frac: Vec<u8> = Vec::new();
    let mut j: usize = dot + 1;
    while j < n
        invariant
            dot + 1 <= j <= n,
            dot < n,
            n == f@.len(),
            dot == find_byte(f@, 46),
            frac@.len() == j - dot - 1,
            forall|m: int| dot + 1 <= m < j ==> is_digit(#[trigger] f@[m]),
            forall|m: int| 0 <= m < frac@.len() ==> frac@[m] == f@[dot + 1 + m] - 48,
            forall|m: int| 0 <= m < frac@.len() ==> frac@[m] <= 9,
        decreases n - j,
    {
        let c: u8 = f[j];
        if c < 48 || c > 57 {
            proof {
                let fp = f@.skip(dot + 1);
                assert(fp[j - dot - 1] == f@[j as int]);
                assert(!all_digits(fp));
            }
            return None;
        }
        frac.push(c - 48);
        j = j + 1;
    }
    let r = UiAmount { int_part: acc, frac };
    proof {
        let fp = f@.skip(dot + 1);
        assert(all_digits(fp));
        assert(r@.frac =~= digit_seq(fp));
        assert(ip.len() + fp.len() >= 1);
    }
    Some(r)
}


/// An optional spec index and an optional executable index agree.
pub open spec fn opt_idx(a: Option<int>, b: Option<usize>) -> bool {
    match (a, b) {
        (Option::None, Option::None) => true,
        (Option::Some(x), Option::Some(y)) => x == y as int,
        _ => false,
    }
}

/// Reads the column positions off the header fields; `None` when the header
/// is invalid.
fn parse_header_exec(h: &Vec<Vec<u8>>) -> (r: Option<
    (usize, Option<usize>, Option<usize>, Option<usize>),
>)
    ensures
        r is Some <==> header_cols(byte_views(h@)) is Some,
        (r matches Some(t) ==> (header_cols(byte_views(h@)) matches Some(cols) && cols.ncols
            == h@.len() && cols.pubkey == t.0 as int && t.0 < h@.len() && opt_idx(
            cols.unlocked,
            t.1,
        ) && opt_idx(cols.locked, t.2) && opt_idx(cols.amount, t.3) && (t.1 matches Some(x) ==> x
            < h@.len()) && (t.2 matches Some(x) ==> x < h@.len()) && (t.3 matches Some(x) ==> x
            < h@.len()))),
{
    let ghost hv: Seq<Seq<u8>> = byte_views(h@);
    let n: usize = h.len();
    let name_pk: Vec<u8> = pubkey_name();
    let name_unl: Vec<u8> = unlocked_name();
    let name_lck: Vec<u8> = locked_name();
    let name_amt: Vec<u8> = amount_name();
    let mut pk: Option<usize> = None;
    let mut unl: Option<usize> = None;
    let mut lck: Option<usize> = None;
    let mut amt: Option<usize> = None;
    let mut i: usize = 0;
    while i < n
        invariant
            i <= n,
            n == h@.len(),
            hv == byte_views(h@),
            name_pk@ == col_pubkey(),
            name_unl@ == col_amount_unlocked(),
            name_lck@ == col_amount_locked(),
            name_amt@ == col_amount(),
            forall|m: int|
                0 <= m < i ==> (#[trigger] hv[m] == col_pubkey() || hv[m]
                    == col_amount_unlocked() || hv[m] == col_amount_locked() || hv[m]
                    == col_amount()),
            (pk matches Some(p) ==> p < i && hv[p as int] == col_pubkey() && forall|m: int|
                0 <= m < i && m != p ==> hv[m] != col_pubkey()),
            (pk is None ==> forall|m: int| 0 <= m < i ==> hv[m] != col_pubkey()),
            (unl matches Some(p) ==> p < i && hv[p as int] == col_amount_unlocked() && forall|
                m: int,
            |
                0 <= m < i && m != p ==> hv[m] != col_amount_unlocked()),
            (unl is None ==> forall|m: int| 0 <= m < i ==> hv[m] != col_amount_unlocked()),
            (lck matches Some(p) ==> p < i && hv[p as int] == col_amount_locked() && forall|
                m: int,
            |
                0 <= m < i && m != p ==> hv[m] != col_amount_locked()),
            (lck is None ==> forall|m: int| 0 <= m < i ==> hv[m] != col_amount_locked()),
            (amt matches Some(p) ==> p < i && hv[p as int] == col_amount() && forall|m: int|
                0 <= m < i && m != p ==> hv[m] != col_amount()),
            (amt is None ==> forall|m: int| 0 <= m < i ==> hv[m] != col_amount()),
        decreases n - i,
    {
        let field: &Vec<u8> = &h[i];
        proof {
            assert(hv[i as int] == field@);
        }
        if bytes_eq(field, &name_pk) {
            if pk.is_some() {
                proof {
                    let p = pk.unwrap();
                    assert(hv[p as int] == hv[i as int]);
                    assert(!header_ok(hv));
                }
                return None;
            }
            pk = Some(i);
        } else if bytes_eq(field, &name_unl) {
            if unl.is_some() {
                proof {
                    let p = unl.unwrap();
                    assert(hv[p as int] == hv[i as int]);
                    assert(!header_ok(hv));
                }
                return None;
            }
            unl = Some(i);
        } else if bytes_eq(field, &name_lck) {
            if lck.is_some() {
                proof {
                    let p = lck.unwrap();
                    assert(hv[p as int] == hv[i as int]);
                    assert(!header_ok(hv));
                }
                return None;
            }
            lck = Some(i);
        } else if bytes_eq(field, &name_amt) {
            if amt.is_some() {
                proof {
                    let p = amt.unwrap();
                    assert(hv[p as int] == hv[i as int]);
                    assert(!header_ok(hv));
                }
                return None;
            }
            amt = Some(i);
        } else {
            proof {
                assert(!(hv[i as int] == col_pubkey() || hv[i as int] == col_amount_unlocked()
                    || hv[i as int] == col_amount_locked() || hv[i as int] == col_amount()));
                assert(!header_ok(hv));
            }
            return None;
        }
        i = i + 1;
    }
    let pk_idx: usize = match pk {
        Some(p) => p,
        None => {
            proof {
                assert(!has_col(hv, col_pubkey()));
                assert(!header_ok(hv));
            }
            return None;
        },
    };
    proof {
        // every name is known, no name repeats, and pubkey is present
        assert forall|p: int, q: int| #![trigger hv[p], hv[q]] 0 <= p < q < hv.len() implies hv[p]
            != hv[q] by {
            if hv[p] == hv[q] {
                if hv[p] == col_pubkey() {
                    assert(p == pk_idx as int && q == pk_idx as int);
                } else if hv[p] == col_amount_unlocked() {
                    let u = unl.unwrap();
                    assert(p == u as int && q == u as int);
                } else if hv[p] == col_amount_locked() {
                    let u = lck.unwrap();
                    assert(p == u as int && q == u as int);
                } else {
                    let u = amt.unwrap();
                    assert(p == u as int && q == u as int);
                }
            }
        }
        assert(hv[pk_idx as int] == col_pubkey());
        assert(has_col(hv, col_pubkey()));
        assert(header_ok(hv));
        lemma_first_index_char(hv, col_pubkey(), pk_idx as int);
        match unl {
            Some(p) => {
                lemma_first_index_char(hv, col_amount_unlocked(), p as int);
                assert(has_col(hv, col_amount_unlocked()));
            },
            None => {
                assert(!has_col(hv, col_amount_unlocked()));
            },
        }
        match lck {
            Some(p) => {
                lemma_first_index_char(hv, col_amount_locked(), p as int);
                assert(has_col(hv, col_amount_locked()));
            },
            None => {
                assert(!has_col(hv, col_amount_locked()));
            },
        }
        match amt {
            Some(p) => {
                lemma_first_index_char(hv, col_amount(), p as int);
                assert(has_col(hv, col_amount()));
            },
            None => {
                assert(!has_col(hv, col_amount()));
            },
        }
    }
    Some((pk_idx, unl, lck, amt))
}

/// Copies a byte vector.
fn copy_bytes(v: &Vec<u8>) -> (r: Vec<u8>)
    ensures
        r@ == v@,
{
    copy_range(v, 0, v.len())
}

/// Parses one data record against the header positions.
fn parse_row_exec(
    fields: &Vec<Vec<u8>>,
    ncols: usize,
    pk: usize,
    unl: &Option<usize>,
    lck: &Option<usize>,
    amt: &Option<usize>,
    cols: Ghost<HeaderView>,
) -> (r: Option<CsvEntry>)
    requires
        cols@.ncols == ncols as int,
        cols@.pubkey == pk as int,
        pk < ncols,
        opt_idx(cols@.unlocked, *unl),
        opt_idx(cols@.locked, *lck),
        opt_idx(cols@.amount, *amt),
        (unl matches Some(x) ==> x < ncols),
        (lck matches Some(x) ==> x < ncols),
        (amt matches Some(x) ==> x < ncols),
    ensures
        r is Some <==> parse_row_spec(cols@, byte_views(fields@)) is Some,
        (r matches Some(e) ==> parse_row_spec(cols@, byte_views(fields@)) == Some(e@)
            && e@.wf()),
{
    let ghost fv: Seq<Seq<u8>> = byte_views(fields@);
    if fields.len() != ncols {
        return None;
    }
    let pubkey_field: &Vec<u8> = &fields[pk];
    if pubkey_field.is_empty() {
        proof {
            assert(fv[cols@.pubkey].len() == 0);
        }
        return None;
    }
    let unlocked_ui: UiAmount = match unl {
        None => UiAmount::zero(),
        Some(i) => match parse_amount_exec(&fields[*i]) {
            Some(a) => a,
            None => {
                proof {
                    assert(get_amount(cols@.unlocked, fv) is None);
                }
                return None;
            },
        },
    };
    proof {
        assert(get_amount(cols@.unlocked, fv) == Some(unlocked_ui@));
        assert(unlocked_ui@.wf());
    }
    let locked_ui: UiAmount = match lck {
        None => UiAmount::zero(),
        Some(i) => match parse_amount_exec(&fields[*i]) {
            Some(a) => a,
            None => {
                proof {
                    assert(get_amount(cols@.locked, fv) is None);
                }
                return None;
            },
        },
    };
    proof {
        assert(get_amount(cols@.locked, fv) == Some(locked_ui@));
        assert(locked_ui@.wf());
    }
    let amount_opt: Option<UiAmount> = match amt {
        None => None,
        Some(i) => {
            if fields[*i].is_empty() {
                None
            } else {
                match parse_amount_exec(&fields[*i]) {
                    Some(a) => Some(a),
                    None => {
                        return None;
                    },
                }
            }
        },
    };
    let use_legacy: bool = match &amount_opt {
        Some(_) => unlocked_ui.is_zero() && locked_ui.is_zero(),
        None => false,
    };
    let final_unlocked: UiAmount = if use_legacy {
        match &amount_opt {
            Some(a) => a.clone(),
            None => unlocked_ui,
        }
    } else {
        unlocked_ui
    };
    let entry = CsvEntry {
        pubkey: copy_bytes(pubkey_field),
        amount_unlocked: final_unlocked,
        amount_locked: locked_ui,
        amount: amount_opt,
    };
    proof {
        let base = CsvEntryView {
            pubkey: fv[cols@.pubkey],
            amount_unlocked: get_amount(cols@.unlocked, fv).unwrap(),
            amount_locked: get_amount(cols@.locked, fv).unwrap(),
            amount: None,
        };
        match cols@.amount {
            None => {
                assert(entry@ == apply_legacy(base));
            },
            Some(ai) => {
                if fv[ai].len() == 0 {
                    assert(entry@ == apply_legacy(base));
                } else {
                    let witha = CsvEntryView {
                        amount: Some(parse_amount_spec(fv[ai]).unwrap()),
                        ..base
                    };
                    assert(entry@ == apply_legacy(witha));
                }
            },
        }
        assert(entry@.wf());
    }
    Some(entry)
}

impl CsvEntry {
    /// Parses the bytes of a CSV file into its raw claim rows, in file
    /// order, applying the legacy single-amount fallback to each row. Fails
    /// with `MalformedInputError` exactly when the bytes do not follow the
    /// dialect above.
    pub fn new_from_bytes(data: &Vec<u8>) -> (r: Result<Vec<CsvEntry>, MerkleTreeError>)
        ensures
            r is Ok <==> parse_csv_spec(data@) is Some,
            (r matches Ok(v) ==> parse_csv_spec(data@) == Some(entry_views(v@)) && forall|i: int|
                0 <= i < v@.len() ==> (#[trigger] v@[i]@).wf()),
            r is Err ==> r == Err::<Vec<CsvEntry>, MerkleTreeError>(
                MerkleTreeError::MalformedInputError,
            ),
    {
        let lines: Vec<Vec<u8>> = split_lines_exec(data);
        let ghost lv: Seq<Seq<u8>> = byte_views(lines@);
        let nlines: usize = lines.len();
        if nlines <= 1 {
            let empty: Vec<CsvEntry> = Vec::new();
            proof {
                assert(entry_views(empty@) =~= Seq::<CsvEntryView>::empty());
            }
            return Ok(empty);
        }
        let header: Vec<Vec<u8>> = split_fields_exec(&lines[0]);
        proof {
            assert(lv[0] == lines@[0]@);
            assert(split_fields(lv[0]) == byte_views(header@));
        }
        let (pk, unl, lck, amt) = match parse_header_exec(&header) {
            Some(t) => t,
            None => {
                proof {
                    assert(header_cols(split_fields(lv[0])) is None);
                }
                return Err(MerkleTreeError::MalformedInputError);
            },
        };
        let ncols: usize = header.len();
        let ghost cols: HeaderView = header_cols(byte_views(header@)).unwrap();
        let mut out: Vec<CsvEntry> = Vec::new();
        let mut li: usize = 1;
        proof {
            assert(entry_views(out@) =~= Seq::<CsvEntryView>::empty());
        }
        while li < nlines
            invariant
                1 <= li <= nlines,
                nlines == lines@.len(),
                nlines > 1,
                lv == byte_views(lines@),
                lv == split_lines(data@),
                header_cols(split_fields(lv[0])) == Some(cols),
                cols.ncols == ncols as int,
                cols.pubkey == pk as int,
                pk < ncols,
                opt_idx(cols.unlocked, unl),
                opt_idx(cols.locked, lck),
                opt_idx(cols.amount, amt),
                (unl matches Some(x) ==> x < ncols),
                (lck matches Some(x) ==> x < ncols),
                (amt matches Some(x) ==> x < ncols),
                out@.len() == li - 1,
                forall|i: int| 0 <= i < out@.len() ==> (#[trigger] out@[i]@).wf(),
                (parse_rows(cols, lv.skip(1)) matches Some(es) ==> (parse_rows(
                    cols,
                    lv.skip(li as int),
                ) matches Some(es2) && es == entry_views(out@) + es2)),
                (parse_rows(cols, lv.skip(li as int)) is Some ==> parse_rows(cols, lv.skip(1))
                    is Some),
            decreases nlines - li,
        {
            let fields: Vec<Vec<u8>> = split_fields_exec(&lines[li]);
            proof {
                assert(lv.skip(li as int)[0] == lv[li as int]);
                assert(lv[li as int] == lines@[li as int]@);
                assert(split_fields(lv.skip(li as int)[0]) == byte_views(fields@));
            }
            let entry: CsvEntry = match parse_row_exec(
                &fields,
                ncols,
                pk,
                &unl,
                &lck,
                &amt,
                Ghost(cols),
            ) {
                Some(e) => e,
                None => {
                    proof {
                        assert(parse_rows(cols, lv.skip(li as int)) is None);
                    }
                    return Err(MerkleTreeError::MalformedInputError);
                },
            };
            let ghost old_out: Seq<CsvEntry> = out@;
            out.push(entry);
            proof {
                assert(entry_views(out@) =~= entry_views(old_out).push(entry@));
                assert(lv.skip(li as int).skip(1) =~= lv.skip(li + 1));
                let cur = parse_rows(cols, lv.skip(li as int));
                let nxt = parse_rows(cols, lv.skip(li + 1));
                if nxt is Some {
                    let es2 = nxt.unwrap();
                    assert(cur matches Some(c) && c == seq![entry@] + es2);
                    assert(entry_views(old_out) + (seq![entry@] + es2) =~= entry_views(out@)
                        + es2);
                } else {
                    assert(cur is None);
                }
            }
            li = li + 1;
        }
        proof {
            assert(lv.skip(li as int).len() == 0);
            assert(parse_rows(cols, lv.skip(li as int)) == Some(Seq::<CsvEntryView>::empty()));
            assert(entry_views(out@) + Seq::<CsvEntryView>::empty() =~= entry_views(out@));
            assert(parse_csv_spec(data@) == Some(entry_views(out@)));
        }
        Ok(out)
    }
}

} // verus!
