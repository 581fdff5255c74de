//! Debian-style ordering of version strings.
//!
//! A version reads `[epoch:]upstream[-revision]`. The three parts are compared
//! in that order, each as a fragment: a fragment alternates runs of non-digits,
//! compared character by character by weight, and runs of digits, compared as
//! numbers.
use std::cmp::Ordering;
use vstd::prelude::*;
use vstd::slice::slice_subrange;
use vstd::string::StringSliceAdditionalSpecFns;

verus! {

pub open spec fn is_digit(c: u8) -> bool {
    48 <= c && c <= 57
}

pub open spec fn is_letter(c: u8) -> bool {
    (65 <= c && c <= 90) || (97 <= c && c <= 122)
}

/// Weight of a byte inside a non-digit run: digits (and the end of the run)
/// weigh 0, letters their code, `~` less than everything, and every other
/// byte more than any letter.
pub open spec fn weight(c: u8) -> int {
    if is_digit(c) {
        0
    } else if is_letter(c) {
        c as int
    } else if c == 126 {
        -1
    } else if c != 0 {
        c as int + 256
    } else {
        0
    }
}

/// The weight at the head of `s`; an exhausted run weighs 0.
pub open spec fn head_weight(s: Seq<u8>) -> int {
    if s.len() == 0 {
        0
    } else {
        weight(s[0])
    }
}

pub open spec fn tail(s: Seq<u8>) -> Seq<u8> {
    if s.len() == 0 {
        s
    } else {
        s.drop_first()
    }
}

/// Length of the leading run of digits (`digits`) or of non-digits (`!digits`).
pub open spec fn run_len(s: Seq<u8>, digits: bool) -> nat
    decreases s.len(),
{
    if s.len() == 0 || is_digit(s[0]) != digits {
        0
    } else {
        1 + run_len(s.drop_first(), digits)
    }
}

/// Number of leading `'0'` bytes.
pub open spec fn zeros_len(s: Seq<u8>) -> nat
    decreases s.len(),
{
    if s.len() == 0 || s[0] != 48 {
        0
    } else {
        1 + zeros_len(s.drop_first())
    }
}

/// Compares two non-digit runs position by position by weight, the shorter
/// one padded with weight 0. Result in {-1, 0, 1}.
pub open spec fn text_cmp(x: Seq<u8>, y: Seq<u8>) -> int
    decreases x.len() + y.len(),
{
    if x.len() == 0 && y.len() == 0 {
        0
    } else if head_weight(x) < head_weight(y) {
        -1
    } else if head_weight(x) > head_weight(y) {
        1
    } else {
        text_cmp(tail(x), tail(y))
    }
}

/// Compares two digit strings of equal length by their first difference.
pub open spec fn digits_lex(x: Seq<u8>, y: Seq<u8>) -> int
    decreases x.len(),
{
    if x.len() == 0 || y.len() == 0 {
        0
    } else if x[0] < y[0] {
        -1
    } else if x[0] > y[0] {
        1
    } else {
        digits_lex(x.drop_first(), y.drop_first())
    }
}

/// Compares two runs of digits as numbers: leading zeros aside, the longer
/// run is the larger number, and runs of one length compare digit by digit.
pub open spec fn num_cmp(x: Seq<u8>, y: Seq<u8>) -> int {
    let a = x.skip(zeros_len(x) as int);
    let b = y.skip(zeros_len(y) as int);
    if a.len() < b.len() {
        -1
    } else if a.len() > b.len() {
        1
    } else {
        digits_lex(a, b)
    }
}

/// Compares two fragments. An exhausted fragment is less than one that goes
/// on, unless that one goes on with `~`. Otherwise a non-digit run is
/// compared, then a digit run, then the rest.
pub open spec fn frag_cmp(a: Seq<u8>, b: Seq<u8>) -> int
    decreases a.len() + b.len(),
    via frag_cmp_decreases
{
    if a.len() == 0 && b.len() == 0 {
        0
    } else if a.len() == 0 {
        if b[0] == 126 {
            1
        } else {
            -1
        }
    } else if b.len() == 0 {
        if a[0] == 126 {
            -1
        } else {
            1
        }
    } else {
        let ta = run_len(a, false);
        let tb = run_len(b, false);
        let t = text_cmp(a.take(ta as int), b.take(tb as int));
        if t != 0 {
            t
        } else {
            let ra = a.skip(ta as int);
            let rb = b.skip(tb as int);
            let da = run_len(ra, true);
            let db = run_len(rb, true);
            let n = num_cmp(ra.take(da as int), rb.take(db as int));
            if n != 0 {
                n
            } else {
                frag_cmp(ra.skip(da as int), rb.skip(db as int))
            }
        }
    }
}

proof fn lemma_run_len_bound(s: Seq<u8>, digits: bool)
    ensures
        run_len(s, digits) <= s.len(),
        s.len() > 0 && is_digit(s[0]) == digits ==> run_len(s, digits) > 0,
    decreases s.len(),
{
    if s.len() > 0 && is_digit(s[0]) == digits {
        lemma_run_len_bound(s.drop_first(), digits);
    }
}

#[via_fn]
proof fn frag_cmp_decreases(a: Seq<u8>, b: Seq<u8>) {
    if a.len() > 0 && b.len() > 0 {
        let ta = run_len(a, false);
        let tb = run_len(b, false);
        lemma_run_len_bound(a, false);
        lemma_run_len_bound(b, false);
        let ra = a.skip(ta as int);
        let rb = b.skip(tb as int);
        lemma_run_len_bound(ra, true);
        lemma_run_len_bound(rb, true);
        if a.len() > 0 && ta == 0 {
            assert(ra =~= a);
        }
        if b.len() > 0 && tb == 0 {
            assert(rb =~= b);
        }
    }
}

/// Index of the first `c` in `s`, or `s.len()` where there is none.
pub open spec fn first_index(s: Seq<u8>, c: u8) -> nat
    decreases s.len(),
{
    if s.len() == 0 || s[0] == c {
        0
    } else {
        1 + first_index(s.drop_first(), c)
    }
}

/// Index of the last `c` in `s`, or -1 where there is none.
pub open spec fn last_index(s: Seq<u8>, c: u8) -> int
    decreases s.len(),
{
    if s.len() == 0 {
        -1
    } else if s.last() == c {
        s.len() - 1
    } else {
        last_index(s.drop_last(), c)
    }
}

/// Where the epoch's colon stands: the first `:`, unless it opens the string.
pub open spec fn has_epoch(s: Seq<u8>) -> bool {
    0 < first_index(s, 58) < s.len()
}

/// The epoch, without its leading zeros (so that a zero epoch is none).
pub open spec fn epoch_of(s: Seq<u8>) -> Seq<u8> {
    if has_epoch(s) {
        let e = s.take(first_index(s, 58) as int);
        e.skip(zeros_len(e) as int)
    } else {
        Seq::empty()
    }
}

/// What follows the epoch: upstream version and revision.
pub open spec fn body_of(s: Seq<u8>) -> Seq<u8> {
    if has_epoch(s) {
        s.skip(first_index(s, 58) + 1int)
    } else {
        s
    }
}

/// The upstream version: the body up to its last `-`.
pub open spec fn upstream_of(s: Seq<u8>) -> Seq<u8> {
    let body = body_of(s);
    let d = last_index(body, 45);
    if d >= 0 {
        body.take(d)
    } else {
        body
    }
}

/// The revision: what follows the body's last `-`, or `0` where there is
/// none.
pub open spec fn revision_of(s: Seq<u8>) -> Seq<u8> {
    let body = body_of(s);
    let d = last_index(body, 45);
    if d >= 0 {
        body.skip(d + 1)
    } else {
        seq![48u8]
    }
}

/// The ordering of two versions, as -1, 0 or 1.
pub open spec fn version_cmp(a: Seq<u8>, b: Seq<u8>) -> int {
    let e = frag_cmp(epoch_of(a), epoch_of(b));
    if e != 0 {
        e
    } else {
        let u = frag_cmp(upstream_of(a), upstream_of(b));
        if u != 0 {
            u
        } else {
            frag_cmp(revision_of(a), revision_of(b))
        }
    }
}

/// The `Ordering` that a comparison result in {-1, 0, 1} stands for.
pub open spec fn ordering_of(c: int) -> Ordering {
    if c < 0 {
        Ordering::Less
    } else if c == 0 {
        Ordering::Equal
    } else {
        Ordering::Greater
    }
}

fn weight_of(c: u8) -> (w: i32)
    ensures
        w == weight(c),
{
    if 48 <= c && c <= 57 {
        0
    } else if (65 <= c && c <= 90) || (97 <= c && c <= 122) {
        c as i32
    } else if c == 126 {
        -1
    } else if c != 0 {
        c as i32 + 256
    } else {
        0
    }
}

/// End of the run of digits (`digits`) or non-digits that starts at `from`.
fn run_end(s: &[u8], from: usize, digits: bool) -> (r: usize)
    requires
        from <= s@.len(),
    ensures
        from <= r <= s@.len(),
        r - from == run_len(s@.skip(from as int), digits),
{
    let mut k: usize = from;
    while k < s.len() && ((48 <= s[k] && s[k] <= 57) == digits)
        invariant
            from <= k <= s@.len(),
            run_len(s@.skip(from as int), digits) == (k - from) + run_len(
                s@.skip(k as int),
                digits,
            ),
        decreases s@.len() - k,
    {
        assert(s@.skip(k as int).drop_first() =~= s@.skip(k + 1));
        k = k + 1;
    }
    k
}

/// End of the run of `'0'` bytes in `s[from..end]` that starts at `from`.
fn zeros_end(s: &[u8], from: usize, end: usize) -> (r: usize)
    requires
        from <= end <= s@.len(),
    ensures
        from <= r <= end,
        r - from == zeros_len(s@.subrange(from as int, end as int)),
{
    let mut k: usize = from;
    while k < end && s[k] == 48
        invariant
            from <= k <= end <= s@.len(),
            zeros_len(s@.subrange(from as int, end as int)) == (k - from) + zeros_len(
                s@.subrange(k as int, end as int),
            ),
        decreases end - k,
    {
        assert(s@.subrange(k as int, end as int).drop_first() =~= s@.subrange(
            k + 1,
            end as int,
        ));
        k = k + 1;
    }
    k
}

/// Compares two non-digit runs by weight.
fn text_compare(a: &[u8], b: &[u8]) -> (r: i8)
    ensures
        r == text_cmp(a@, b@),
{
    let mut p: usize = 0;
    let mut q: usize = 0;
    assert(a@.skip(0) =~= a@ && b@.skip(0) =~= b@);
    while p < a.len() || q < b.len()
        invariant
            p <= a@.len(),
            q <= b@.len(),
            text_cmp(a@, b@) == text_cmp(a@.skip(p as int), b@.skip(q as int)),
        decreases (a@.len() - p) + (b@.len() - q),
    {
        let wa = if p < a.len() {
            weight_of(a[p])
        } else {
            0
        };
        let wb = if q < b.len() {
            weight_of(b[q])
        } else {
            0
        };
        if wa < wb {
            return -1;
        }
        if wa > wb {
            return 1;
        }
        if p < a.len() {
            assert(tail(a@.skip(p as int)) =~= a@.skip(p + 1));
            p = p + 1;
        } else {
            assert(tail(a@.skip(p as int)) =~= a@.skip(p as int));
        }
        if q < b.len() {
            assert(tail(b@.skip(q as int)) =~= b@.skip(q + 1));
            q = q + 1;
        } else {
            assert(tail(b@.skip(q as int)) =~= b@.skip(q as int));
        }
    }
    assert(a@.skip(p as int).len() == 0 && b@.skip(q as int).len() == 0);
    0
}

/// Compares two digit strings of equal length by their first difference.
fn digits_compare(a: &[u8], b: &[u8]) -> (r: i8)
    requires
        a@.len() == b@.len(),
    ensures
        r == digits_lex(a@, b@),
{
    let mut k: usize = 0;
    assert(a@.skip(0) =~= a@ && b@.skip(0) =~= b@);
    while k < a.len()
        invariant
            a@.len() == b@.len(),
            k <= a@.len(),
            digits_lex(a@, b@) == digits_lex(a@.skip(k as int), b@.skip(k as int)),
        decreases a@.len() - k,
    {
        if a[k] < b[k] {
            return -1;
        }
        if a[k] > b[k] {
            return 1;
        }
        assert(a@.skip(k as int).drop_first() =~= a@.skip(k + 1));
        assert(b@.skip(k as int).drop_first() =~= b@.skip(k + 1));
        k = k + 1;
    }
    0
}

/// Compares two runs of digits as numbers.
fn num_compare(a: &[u8], b: &[u8]) -> (r: i8)
    ensures
        r == num_cmp(a@, b@),
{
    let za = zeros_end(a, 0, a.len());
    let zb = zeros_end(b, 0, b.len());
    assert(a@.subrange(0, a@.len() as int) =~= a@);
    assert(b@.subrange(0, b@.len() as int) =~= b@);
    let la = a.len() - za;
    let lb = b.len() - zb;
    if la < lb {
        -1
    } else if la > lb {
        1
    } else {
        let sa = slice_subrange(a, za, a.len());
        let sb = slice_subrange(b, zb, b.len());
        assert(sa@ =~= a@.skip(za as int));
        assert(sb@ =~= b@.skip(zb as int));
        digits_compare(sa, sb)
    }
}

/// Compares two fragments.
fn frag_compare(a: &[u8], b: &[u8]) -> (r: i8)
    ensures
        r == frag_cmp(a@, b@),
{
    let mut i: usize = 0;
    let mut j: usize = 0;
    assert(a@.skip(0) =~= a@ && b@.skip(0) =~= b@);
    while i < a.len() && j < b.len()
        invariant
            i <= a@.len(),
            j <= b@.len(),
            frag_cmp(a@, b@) == frag_cmp(a@.skip(i as int), b@.skip(j as int)),
        decreases (a@.len() - i) + (b@.len() - j),
    {
        let ghost xa = a@.skip(i as int);
        let ghost xb = b@.skip(j as int);
        let ta = run_end(a, i, false);
        let tb = run_end(b, j, false);
        let t = text_compare(slice_subrange(a, i, ta), slice_subrange(b, j, tb));
        assert(a@.subrange(i as int, ta as int) =~= xa.take(ta - i));
        assert(b@.subrange(j as int, tb as int) =~= xb.take(tb - j));
        if t != 0 {
            return t;
        }
        assert(xa.skip(ta - i) =~= a@.skip(ta as int));
        assert(xb.skip(tb - j) =~= b@.skip(tb as int));
        let da = run_end(a, ta, true);
        let db = run_end(b, tb, true);
        let n = num_compare(slice_subrange(a, ta, da), slice_subrange(b, tb, db));
        assert(a@.subrange(ta as int, da as int) =~= a@.skip(ta as int).take(da - ta));
        assert(b@.subrange(tb as int, db as int) =~= b@.skip(tb as int).take(db - tb));
        if n != 0 {
            return n;
        }
        assert(a@.skip(ta as int).skip(da - ta) =~= a@.skip(da as int));
        assert(b@.skip(tb as int).skip(db - tb) =~= b@.skip(db as int));
        proof {
            lemma_run_len_bound(xa, false);
            lemma_run_len_bound(a@.skip(ta as int), true);
            if i < a@.len() && ta == i {
                assert(a@.skip(ta as int) =~= xa);
            }
            if j < b@.len() && tb == j {
                assert(b@.skip(tb as int) =~= xb);
            }
            lemma_run_len_bound(xb, false);
            lemma_run_len_bound(b@.skip(tb as int), true);
        }
        i = da;
        j = db;
    }
    if i == a.len() && j == b.len() {
        0
    } else if i == a.len() {
        if b[j] == 126 {
            1
        } else {
            -1
        }
    } else if a[i] == 126 {
        -1
    } else {
        1
    }
}

/// Index of the first `c` in `s`, or its length.
fn find_first(s: &[u8], c: u8) -> (r: usize)
    ensures
        r == first_index(s@, c),
{
    let mut k: usize = 0;
    assert(s@.skip(0) =~= s@);
    while k < s.len() && s[k] != c
        invariant
            k <= s@.len(),
            first_index(s@, c) == k + first_index(s@.skip(k as int), c),
        decreases s@.len() - k,
    {
        assert(s@.skip(k as int).drop_first() =~= s@.skip(k + 1));
        k = k + 1;
    }
    k
}

/// Index of the last `c` in `s`, or `None`.
fn find_last(s: &[u8], c: u8) -> (r: Option<usize>)
    ensures
        match r {
            Some(d) => d == last_index(s@, c),
            None => last_index(s@, c) == -1,
        },
{
    let mut k: usize = s.len();
    assert(s@.take(k as int) =~= s@);
    while k > 0 && s[k - 1] != c
        invariant
            k <= s@.len(),
            last_index(s@, c) == last_index(s@.take(k as int), c),
        decreases k,
    {
        assert(s@.take(k as int).drop_last() =~= s@.take(k - 1));
        k = k - 1;
    }
    if k == 0 {
        None
    } else {
        Some(k - 1)
    }
}

/// Compares the two versions as -1, 0 or 1.
fn version_compare(a: &[u8], b: &[u8]) -> (r: i8)
    ensures
        r == version_cmp(a@, b@),
{
    let zero: Vec<u8> = vec![48u8];
    assert(zero@ =~= seq![48u8]);
    let (ea, ua, ra) = split_version(a);
    let (eb, ub, rb) = split_version(b);
    let ra = match ra {
        Some(r) => r,
        None => zero.as_slice(),
    };
    let rb = match rb {
        Some(r) => r,
        None => zero.as_slice(),
    };
    let e = frag_compare(ea, eb);
    if e != 0 {
        return e;
    }
    let u = frag_compare(ua, ub);
    if u != 0 {
        return u;
    }
    frag_compare(ra, rb)
}

/// Splits a version into epoch, upstream version and revision; `None`
/// where there is no revision.
fn split_version(s: &[u8]) -> (r: (&[u8], &[u8], Option<&[u8]>))
    ensures
        r.0@ == epoch_of(s@),
        r.1@ == upstream_of(s@),
        match r.2 {
            Some(rev) => rev@ == revision_of(s@),
            None => revision_of(s@) == seq![48u8],
        },
{
    let colon = find_first(s, 58);
    let (epoch, body) = if 0 < colon && colon < s.len() {
        let z = zeros_end(s, 0, colon);
        assert(s@.subrange(0, colon as int) =~= s@.take(colon as int));
        assert(s@.subrange(z as int, colon as int) =~= s@.take(colon as int).skip(z as int));
        (slice_subrange(s, z, colon), slice_subrange(s, colon + 1, s.len()))
    } else {
        (slice_subrange(s, 0, 0), s)
    };
    assert(epoch@ =~= epoch_of(s@));
    assert(body@ =~= body_of(s@));
    let n = body.len();
    match find_last(body, 45) {
        Some(d) => {
            proof {
                lemma_last_index_bound(body@, 45);
                assert(d < body@.len());
            }
            let up = slice_subrange(body, 0, d);
            let rev = slice_subrange(body, d + 1, n);
            assert(up@ =~= upstream_of(s@));
            assert(rev@ =~= revision_of(s@));
            (epoch, up, Some(rev))
        },
        None => (epoch, body, None),
    }
}

proof fn lemma_last_index_bound(s: Seq<u8>, c: u8)
    ensures
        -1 <= last_index(s, c) < s.len(),
    decreases s.len(),
{
    if s.len() > 0 && s.last() != c {
        lemma_last_index_bound(s.drop_last(), c);
    }
}

/// Compares two package versions the Debian way; the result applies to the
/// first one.
pub fn cmp_versions(ver1: &str, ver2: &str) -> (r: Ordering)
    ensures
        r == ordering_of(version_cmp(ver1.spec_bytes(), ver2.spec_bytes())),
{
    let c = version_compare(ver1.as_bytes(), ver2.as_bytes());
    if c < 0 {
        Ordering::Less
    } else if c == 0 {
        Ordering::Equal
    } else {
        Ordering::Greater
    }
}

proof fn lemma_text_cmp_antisym(x: Seq<u8>, y: Seq<u8>)
    ensures
        text_cmp(x, y) == -text_cmp(y, x),
        -1 <= text_cmp(x, y) <= 1,
    decreases x.len() + y.len(),
{
    if !(x.len() == 0 && y.len() == 0) {
        lemma_text_cmp_antisym(tail(x), tail(y));
    }
}

proof fn lemma_digits_lex_antisym(x: Seq<u8>, y: Seq<u8>)
    ensures
        digits_lex(x, y) == -digits_lex(y, x),
        -1 <= digits_lex(x, y) <= 1,
    decreases x.len(),
{
    if x.len() > 0 && y.len() > 0 {
        lemma_digits_lex_antisym(x.drop_first(), y.drop_first());
    }
}

proof fn lemma_num_cmp_antisym(x: Seq<u8>, y: Seq<u8>)
    ensures
        num_cmp(x, y) == -num_cmp(y, x),
        -1 <= num_cmp(x, y) <= 1,
{
    let a = x.skip(zeros_len(x) as int);
    let b = y.skip(zeros_len(y) as int);
    lemma_digits_lex_antisym(a, b);
}

proof fn lemma_frag_cmp_antisym(a: Seq<u8>, b: Seq<u8>)
    ensures
        frag_cmp(a, b) == -frag_cmp(b, a),
        -1 <= frag_cmp(a, b) <= 1,
    decreases a.len() + b.len(),
{
    if !(a.len() == 0 && b.len() == 0) {
        let ta = run_len(a, false);
        let tb = run_len(b, false);
        lemma_text_cmp_antisym(a.take(ta as int), b.take(tb as int));
        let ra = a.skip(ta as int);
        let rb = b.skip(tb as int);
        let da = run_len(ra, true);
        let db = run_len(rb, true);
        lemma_num_cmp_antisym(ra.take(da as int), rb.take(db as int));
        lemma_run_len_bound(a, false);
        lemma_run_len_bound(b, false);
        lemma_run_len_bound(ra, true);
        lemma_run_len_bound(rb, true);
        if a.len() > 0 && ta == 0 {
            assert(ra =~= a);
        }
        if b.len() > 0 && tb == 0 {
            assert(rb =~= b);
        }
        lemma_frag_cmp_antisym(ra.skip(da as int), rb.skip(db as int));
    }
}

/// The version ordering is antisymmetric and reflexive: `a` is greater than
/// `b` exactly when `b` is less than `a`, the two readings agree on
/// equality, and every version compares equal to itself.
pub proof fn cmp_versions_antisymmetric(a: Seq<u8>, b: Seq<u8>)
    ensures
        ordering_of(version_cmp(a, b)) == Ordering::Greater <==> ordering_of(version_cmp(b, a))
            == Ordering::Less,
        ordering_of(version_cmp(a, b)) == Ordering::Equal <==> ordering_of(version_cmp(b, a))
            == Ordering::Equal,
        ordering_of(version_cmp(a, a)) == Ordering::Equal,
{
    lemma_frag_cmp_antisym(epoch_of(a), epoch_of(b));
    lemma_frag_cmp_antisym(upstream_of(a), upstream_of(b));
    lemma_frag_cmp_antisym(revision_of(a), revision_of(b));
    lemma_frag_cmp_antisym(epoch_of(a), epoch_of(a));
    lemma_frag_cmp_antisym(upstream_of(a), upstream_of(a));
    lemma_frag_cmp_antisym(revision_of(a), revision_of(a));
}

proof fn lemma_text_cmp_unfold(x: Seq<u8>, y: Seq<u8>)
    ensures
        text_cmp(x, y) == if head_weight(x) < head_weight(y) {
            -1
        } else if head_weight(x) > head_weight(y) {
            1
        } else {
            text_cmp(tail(x), tail(y))
        },
{
    if x.len() == 0 && y.len() == 0 {
        assert(tail(x).len() == 0 && tail(y).len() == 0);
    }
}

proof fn lemma_text_cmp_trans(x: Seq<u8>, y: Seq<u8>, z: Seq<u8>)
    ensures
        text_cmp(x, y) == 0 ==> text_cmp(x, z) == text_cmp(y, z),
        text_cmp(x, y) == -1 && text_cmp(y, z) == -1 ==> text_cmp(x, z) == -1,
    decreases x.len() + y.len() + z.len(),
{
    if !(x.len() == 0 && y.len() == 0 && z.len() == 0) {
        lemma_text_cmp_unfold(x, y);
        lemma_text_cmp_unfold(x, z);
        lemma_text_cmp_unfold(y, z);
        lemma_text_cmp_trans(tail(x), tail(y), tail(z));
    }
}

proof fn lemma_digits_lex_trans(x: Seq<u8>, y: Seq<u8>, z: Seq<u8>)
    requires
        x.len() == y.len(),
        y.len() == z.len(),
    ensures
        digits_lex(x, y) == 0 ==> x == y,
        digits_lex(x, y) == -1 && digits_lex(y, z) == -1 ==> digits_lex(x, z) == -1,
    decreases x.len(),
{
    if x.len() > 0 {
        lemma_digits_lex_trans(x.drop_first(), y.drop_first(), z.drop_first());
        if digits_lex(x, y) == 0 {
            assert(x =~= seq![x[0]] + x.drop_first());
            assert(y =~= seq![y[0]] + y.drop_first());
        }
    } else {
        assert(x =~= y);
    }
}

proof fn lemma_num_cmp_trans(x: Seq<u8>, y: Seq<u8>, z: Seq<u8>)
    ensures
        num_cmp(x, y) == 0 ==> num_cmp(x, z) == num_cmp(y, z),
        num_cmp(x, y) == -1 && num_cmp(y, z) == -1 ==> num_cmp(x, z) == -1,
{
    let a = x.skip(zeros_len(x) as int);
    let b = y.skip(zeros_len(y) as int);
    let c = z.skip(zeros_len(z) as int);
    if a.len() == b.len() && b.len() == c.len() {
        lemma_digits_lex_trans(a, b, c);
    }
    if a.len() == b.len() {
        lemma_digits_lex_trans(a, b, b);
    }
}

proof fn lemma_frag_cmp_unfold(a: Seq<u8>, b: Seq<u8>)
    requires
        a.len() > 0,
        b.len() > 0,
    ensures
        ({
            let ta = run_len(a, false);
            let tb = run_len(b, false);
            let t = text_cmp(a.take(ta as int), b.take(tb as int));
            let ra = a.skip(ta as int);
            let rb = b.skip(tb as int);
            let da = run_len(ra, true);
            let db = run_len(rb, true);
            let n = num_cmp(ra.take(da as int), rb.take(db as int));
            frag_cmp(a, b) == if t != 0 {
                t
            } else if n != 0 {
                n
            } else {
                frag_cmp(ra.skip(da as int), rb.skip(db as int))
            }
        }),
{
}

/// Between two fragments that go on, the first bytes decide by weight.
proof fn lemma_frag_cmp_head(a: Seq<u8>, b: Seq<u8>)
    requires
        a.len() > 0,
        b.len() > 0,
    ensures
        weight(a[0]) < weight(b[0]) ==> frag_cmp(a, b) == -1,
        weight(a[0]) > weight(b[0]) ==> frag_cmp(a, b) == 1,
{
    let ta = a.take(run_len(a, false) as int);
    let tb = b.take(run_len(b, false) as int);
    lemma_run_len_bound(a, false);
    lemma_run_len_bound(b, false);
    assert(head_weight(ta) == weight(a[0]));
    assert(head_weight(tb) == weight(b[0]));
    lemma_text_cmp_unfold(ta, tb);
    lemma_frag_cmp_unfold(a, b);
}

proof fn lemma_frag_cmp_trans(a: Seq<u8>, b: Seq<u8>, c: Seq<u8>)
    ensures
        frag_cmp(a, b) == 0 ==> frag_cmp(a, c) == frag_cmp(b, c),
        frag_cmp(a, b) == -1 && frag_cmp(b, c) == -1 ==> frag_cmp(a, c) == -1,
    decreases a.len() + b.len() + c.len(),
{
    lemma_frag_cmp_antisym(a, b);
    lemma_frag_cmp_antisym(b, c);
    lemma_frag_cmp_antisym(a, c);
    if a.len() == 0 || b.len() == 0 || c.len() == 0 {
        if a.len() == 0 && b.len() == 0 {
            assert(a =~= b);
        }
        if a.len() > 0 && b.len() > 0 {
            lemma_frag_cmp_head(a, b);
            lemma_frag_cmp_head(b, a);
        }
        if b.len() > 0 && c.len() > 0 {
            lemma_frag_cmp_head(b, c);
            lemma_frag_cmp_head(c, b);
        }
        if a.len() > 0 && c.len() > 0 {
            lemma_frag_cmp_head(a, c);
            lemma_frag_cmp_head(c, a);
        }
    } else {
        lemma_frag_cmp_unfold(a, b);
        lemma_frag_cmp_unfold(a, c);
        lemma_frag_cmp_unfold(b, c);
        let ta = run_len(a, false);
        let tb = run_len(b, false);
        let tc = run_len(c, false);
        let xa = a.take(ta as int);
        let xb = b.take(tb as int);
        let xc = c.take(tc as int);
        lemma_text_cmp_antisym(xa, xb);
        lemma_text_cmp_antisym(xb, xc);
        lemma_text_cmp_antisym(xa, xc);
        lemma_text_cmp_trans(xa, xb, xc);
        lemma_text_cmp_trans(xc, xb, xa);
        let ra = a.skip(ta as int);
        let rb = b.skip(tb as int);
        let rc = c.skip(tc as int);
        let da = run_len(ra, true);
        let db = run_len(rb, true);
        let dc = run_len(rc, true);
        let na = ra.take(da as int);
        let nb = rb.take(db as int);
        let nc = rc.take(dc as int);
        lemma_num_cmp_antisym(na, nb);
        lemma_num_cmp_antisym(nb, nc);
        lemma_num_cmp_antisym(na, nc);
        lemma_num_cmp_trans(na, nb, nc);
        lemma_num_cmp_trans(nc, nb, na);
        lemma_run_len_bound(a, false);
        lemma_run_len_bound(b, false);
        lemma_run_len_bound(c, false);
        lemma_run_len_bound(ra, true);
        lemma_run_len_bound(rb, true);
        lemma_run_len_bound(rc, true);
        if a.len() > 0 && ta == 0 {
            assert(ra =~= a);
        }
        if b.len() > 0 && tb == 0 {
            assert(rb =~= b);
        }
        if c.len() > 0 && tc == 0 {
            assert(rc =~= c);
        }
        let sa = ra.skip(da as int);
        let sb = rb.skip(db as int);
        let sc = rc.skip(dc as int);
        lemma_frag_cmp_antisym(sa, sb);
        lemma_frag_cmp_antisym(sb, sc);
        lemma_frag_cmp_antisym(sa, sc);
        lemma_frag_cmp_trans(sa, sb, sc);
        lemma_frag_cmp_trans(sc, sb, sa);
    }
}

/// The version ordering is transitive: versions that compare equal compare
/// alike against every third version, and a version below one that is below
/// a third is itself below the third.
pub proof fn cmp_versions_transitive(a: Seq<u8>, b: Seq<u8>, c: Seq<u8>)
    ensures
        ordering_of(version_cmp(a, b)) == Ordering::Equal ==> ordering_of(version_cmp(a, c))
            == ordering_of(version_cmp(b, c)),
        ordering_of(version_cmp(a, b)) == Ordering::Less && ordering_of(version_cmp(b, c))
            == Ordering::Less ==> ordering_of(version_cmp(a, c)) == Ordering::Less,
{
    lemma_frag_cmp_antisym(epoch_of(a), epoch_of(b));
    lemma_frag_cmp_antisym(epoch_of(b), epoch_of(c));
    lemma_frag_cmp_antisym(epoch_of(a), epoch_of(c));
    lemma_frag_cmp_trans(epoch_of(a), epoch_of(b), epoch_of(c));
    lemma_frag_cmp_trans(epoch_of(c), epoch_of(b), epoch_of(a));
    lemma_frag_cmp_antisym(upstream_of(a), upstream_of(b));
    lemma_frag_cmp_antisym(upstream_of(b), upstream_of(c));
    lemma_frag_cmp_antisym(upstream_of(a), upstream_of(c));
    lemma_frag_cmp_trans(upstream_of(a), upstream_of(b), upstream_of(c));
    lemma_frag_cmp_trans(upstream_of(c), upstream_of(b), upstream_of(a));
    lemma_frag_cmp_antisym(revision_of(a), revision_of(b));
    lemma_frag_cmp_antisym(revision_of(b), revision_of(c));
    lemma_frag_cmp_antisym(revision_of(a), revision_of(c));
    lemma_frag_cmp_trans(revision_of(a), revision_of(b), revision_of(c));
    lemma_frag_cmp_trans(revision_of(c), revision_of(b), revision_of(a));
}

} // verus!
