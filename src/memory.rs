//! Reading a peak-memory figure out of a process status text, where a line
//! such as `VmHWM:     1234 kB` gives the figure in kibibytes.
//!
//! A field is read as `str::trim`, then `trim_end_matches(" kB")`, then
//! `trim` again, then a `u64` with an optional `+`. Whitespace here is the
//! ASCII whitespace that `trim` removes: space, tab, line feed, vertical
//! tab, form feed and carriage return.
use vstd::prelude::*;

verus! {

/// An ASCII whitespace byte.
pub open spec fn is_space(b: u8) -> bool {
    b == 32 || (9 <= b && b <= 13)
}

/// An ASCII decimal digit.
pub open spec fn is_digit(b: u8) -> bool {
    48 <= b && b <= 57
}

/// The first index in `[i, hi)` that is not whitespace, or `hi`.
pub open spec fn skip_spaces(f: Seq<u8>, i: int, hi: int) -> int
    decreases hi - i,
{
    if 0 <= i < hi && hi <= f.len() && is_space(f[i]) {
        skip_spaces(f, i + 1, hi)
    } else {
        i
    }
}

/// The end of `[lo, hi)` once trailing whitespace is dropped.
pub open spec fn back_spaces(f: Seq<u8>, lo: int, hi: int) -> int
    decreases hi - lo,
{
    if 0 <= lo < hi && hi <= f.len() && is_space(f[hi - 1]) {
        back_spaces(f, lo, hi - 1)
    } else {
        hi
    }
}

/// The end of `[lo, hi)` once every trailing ` kB` is dropped.
pub open spec fn strip_kb(f: Seq<u8>, lo: int, hi: int) -> int
    decreases hi - lo,
{
    if 0 <= lo && lo + 3 <= hi && hi <= f.len() && f[hi - 3] == 32 && f[hi - 2] == 107 && f[hi
        - 1] == 66 {
        strip_kb(f, lo, hi - 3)
    } else {
        hi
    }
}

/// Every byte of `[lo, hi)` is a digit.
pub open spec fn all_digits(f: Seq<u8>, lo: int, hi: int) -> bool {
    forall|j: int| lo <= j < hi ==> #[trigger] is_digit(f[j])
}

/// The number that a run of decimal digits writes.
pub open spec fn digits_value(d: Seq<u8>) -> nat
    decreases d.len(),
{
    if d.len() == 0 {
        0
    } else {
        digits_value(d.drop_last()) * 10 + (d.last() - 48) as nat
    }
}

/// The number of kibibytes a field gives: trimmed, stripped of trailing
/// ` kB`, trimmed again, then an optional `+` and digits that fit in 64 bits.
pub open spec fn field_kib(f: Seq<u8>) -> Option<nat> {
    let a = skip_spaces(f, 0, f.len() as int);
    let e = back_spaces(f, a, strip_kb(f, a, back_spaces(f, a, f.len() as int)));
    let d = if a < e && f[a] == 43 {
        a + 1
    } else {
        a
    };
    if d < e && all_digits(f, d, e) && digits_value(f.subrange(d, e)) <= u64::MAX {
        Some(digits_value(f.subrange(d, e)))
    } else {
        None
    }
}

/// Kibibytes in bytes, or zero where that passes 64 bits.
pub open spec fn bytes_of(k: nat) -> nat {
    if k * 1024 <= u64::MAX {
        k * 1024
    } else {
        0
    }
}

/// The index just past the end of the line that holds `i`.
pub open spec fn line_end(s: Seq<u8>, i: int) -> int
    decreases s.len() - i,
{
    if 0 <= i < s.len() && s[i] != 10 {
        line_end(s, i + 1)
    } else {
        i
    }
}

/// Whether the line starting at `i` starts with `key`.
pub open spec fn key_at(s: Seq<u8>, i: int, key: Seq<u8>) -> bool {
    i + key.len() <= line_end(s, i) && s.subrange(i, i + key.len()) == key
}

/// What follows `key` on the line starting at `i`.
pub open spec fn line_field(s: Seq<u8>, i: int, key: Seq<u8>) -> Seq<u8> {
    s.subrange(i + key.len(), line_end(s, i))
}

/// Whether the line starting at `i` is the one to read: it starts with
/// `key`, and where `skip_bad` holds, its field also parses.
pub open spec fn wanted_at(s: Seq<u8>, i: int, key: Seq<u8>, skip_bad: bool) -> bool {
    key_at(s, i, key) && (!skip_bad || field_kib(line_field(s, i, key)) is Some)
}

/// The start of the first wanted line at or after the line start `i`, or -1.
pub open spec fn find_line(s: Seq<u8>, i: int, key: Seq<u8>, skip_bad: bool) -> int
    decreases s.len() - i,
{
    if i < 0 || i >= s.len() {
        -1
    } else if wanted_at(s, i, key, skip_bad) {
        i
    } else if i <= line_end(s, i) < s.len() {
        find_line(s, line_end(s, i) + 1, key, skip_bad)
    } else {
        -1
    }
}

/// The peak memory in bytes that the first wanted line gives, or zero where
/// there is none, its field does not parse, or the figure overflows.
pub open spec fn status_peak(s: Seq<u8>, key: Seq<u8>, skip_bad: bool) -> nat {
    let i = find_line(s, 0, key, skip_bad);
    if i < 0 {
        0
    } else {
        match field_kib(line_field(s, i, key)) {
            Some(k) => bytes_of(k),
            None => 0,
        }
    }
}

proof fn lemma_line_end_bounds(s: Seq<u8>, i: int)
    requires
        0 <= i <= s.len(),
    ensures
        i <= line_end(s, i) <= s.len(),
        line_end(s, i) < s.len() ==> s[line_end(s, i)] == 10,
    decreases s.len() - i,
{
    if i < s.len() && s[i] != 10 {
        lemma_line_end_bounds(s, i + 1);
    }
}

proof fn lemma_digits_push(d: Seq<u8>, x: u8)
    ensures
        digits_value(d.push(x)) == digits_value(d) * 10 + (x - 48) as nat,
{
    assert(d.push(x).drop_last() =~= d);
}

proof fn lemma_digits_grow(d: Seq<u8>, n: int)
    requires
        0 <= n <= d.len(),
        forall|j: int| 0 <= j < d.len() ==> is_digit(#[trigger] d[j]),
    ensures
        digits_value(d.subrange(0, n)) <= digits_value(d),
    decreases d.len() - n,
{
    if n < d.len() {
        lemma_digits_grow(d, n + 1);
        lemma_digits_push(d.subrange(0, n), d[n]);
        assert(d.subrange(0, n + 1) =~= d.subrange(0, n).push(d[n]));
    } else {
        assert(d.subrange(0, n) =~= d);
    }
}

/// The largest number of kibibytes whose byte count fits in 64 bits.
const KIB_LIMIT: u64 = 0x3f_ffff_ffff_ffff;

/// Kibibytes in bytes, or zero where that passes 64 bits.
fn in_bytes(kib: u64) -> (r: u64)
    ensures
        r as nat == bytes_of(kib as nat),
{
    if kib <= KIB_LIMIT {
        assert(kib * 1024 <= u64::MAX) by (nonlinear_arith)
            requires
                kib <= KIB_LIMIT,
        ;
        kib * 1024
    } else {
        assert(kib * 1024 > u64::MAX) by (nonlinear_arith)
            requires
                kib > KIB_LIMIT,
        ;
        0
    }
}

fn skip_spaces_from(g: &[u8], start: usize, hi: usize) -> (r: usize)
    requires
        start <= hi <= g@.len(),
    ensures
        r as int == skip_spaces(g@, start as int, hi as int),
        start <= r <= hi,
{
    let mut i = start;
    while i < hi && (g[i] == 32 || (9 <= g[i] && g[i] <= 13))
        invariant
            start <= i <= hi <= g@.len(),
            skip_spaces(g@, i as int, hi as int) == skip_spaces(g@, start as int, hi as int),
        decreases hi - i,
    {
        i = i + 1;
    }
    i
}

fn back_spaces_to(g: &[u8], lo: usize, hi: usize) -> (r: usize)
    requires
        lo <= hi <= g@.len(),
    ensures
        r as int == back_spaces(g@, lo as int, hi as int),
        lo <= r <= hi,
{
    let mut h = hi;
    while h > lo && (g[h - 1] == 32 || (9 <= g[h - 1] && g[h - 1] <= 13))
        invariant
            lo <= h <= hi <= g@.len(),
            back_spaces(g@, lo as int, h as int) == back_spaces(g@, lo as int, hi as int),
        decreases h - lo,
    {
        h = h - 1;
    }
    h
}

fn strip_kb_to(g: &[u8], lo: usize, hi: usize) -> (r: usize)
    requires
        lo <= hi <= g@.len(),
    ensures
        r as int == strip_kb(g@, lo as int, hi as int),
        lo <= r <= hi,
{
    let mut h = hi;
    while h - lo >= 3 && g[h - 3] == 32 && g[h - 2] == 107 && g[h - 1] == 66
        invariant
            lo <= h <= hi <= g@.len(),
            strip_kb(g@, lo as int, h as int) == strip_kb(g@, lo as int, hi as int),
        decreases h - lo,
    {
        h = h - 3;
    }
    h
}

/// Reads the digits of `[d, e)` as a `u64`; `None` where a byte is not a
/// digit, the run is empty, or the value passes 64 bits.
fn read_number(g: &[u8], d: usize, e: usize) -> (r: Option<u64>)
    requires
        d <= e <= g@.len(),
    ensures
        r is Some <==> (d < e && all_digits(g@, d as int, e as int) && digits_value(
            g@.subrange(d as int, e as int),
        ) <= u64::MAX),
        r matches Some(v) ==> v as nat == digits_value(g@.subrange(d as int, e as int)),
{
    if d == e {
        return None;
    }
    let mut v: u64 = 0;
    let mut j = d;
    while j < e
        invariant
            d <= j <= e <= g@.len(),
            all_digits(g@, d as int, j as int),
            v as nat == digits_value(g@.subrange(d as int, j as int)),
        decreases e - j,
    {
        let x = g[j];
        if x < 48 || x > 57 {
            assert(!is_digit(g@[j as int]));
            return None;
        }
        proof {
            lemma_digits_push(g@.subrange(d as int, j as int), x);
            assert(g@.subrange(d as int, j + 1) =~= g@.subrange(d as int, j as int).push(x));
        }
        let digit = (x - 48) as u64;
        if v > (u64::MAX - digit) / 10 {
            proof {
                let w = v * 10 + digit;
                assert(w > u64::MAX) by (nonlinear_arith)
                    requires
                        v > (u64::MAX - digit) / 10,
                        w == v * 10 + digit,
                        digit <= 9,
                ;
                if all_digits(g@, d as int, e as int) {
                    let run = g@.subrange(d as int, e as int);
                    assert(run.subrange(0, j + 1 - d) =~= g@.subrange(d as int, j + 1));
                    assert forall|jj: int| 0 <= jj < run.len() implies is_digit(
                        #[trigger] run[jj],
                    ) by {
                        assert(run[jj] == g@[d + jj]);
                    }
                    lemma_digits_grow(run, j + 1 - d);
                }
            }
            return None;
        }
        assert(v * 10 + digit <= u64::MAX) by (nonlinear_arith)
            requires
                v <= (u64::MAX - digit) / 10,
                digit <= 9,
        ;
        v = v * 10 + digit;
        j = j + 1;
    }
    Some(v)
}

/// Parses the field `[from, end)` of a status line, in kibibytes.
fn parse_field(s: &[u8], from: usize, end: usize) -> (r: Option<u64>)
    requires
        from <= end <= s@.len(),
    ensures
        match field_kib(s@.subrange(from as int, end as int)) {
            Some(k) => r == Some(k as u64),
            None => r is None,
        },
{
    let ghost f = s@.subrange(from as int, end as int);
    let mut g: Vec<u8> = Vec::new();
    let mut j = from;
    while j < end
        invariant
            from <= j <= end <= s@.len(),
            g@ == s@.subrange(from as int, j as int),
        decreases end - j,
    {
        g.push(s[j]);
        j = j + 1;
        assert(g@ =~= s@.subrange(from as int, j as int));
    }
    assert(g@ =~= f);
    let n = g.len();
    let a = skip_spaces_from(g.as_slice(), 0, n);
    let e1 = back_spaces_to(g.as_slice(), a, n);
    let e2 = strip_kb_to(g.as_slice(), a, e1);
    let e3 = back_spaces_to(g.as_slice(), a, e2);
    let d = if a < e3 && g[a] == 43 {
        a + 1
    } else {
        a
    };
    read_number(g.as_slice(), d, e3)
}

fn scan(status: &[u8], key: &[u8], skip_bad: bool) -> (r: u64)
    ensures
        r as nat == status_peak(status@, key@, skip_bad),
{
    let n = status.len();
    let k = key.len();
    let mut i: usize = 0;
    while i < n
        invariant
            n == status@.len(),
            k == key@.len(),
            i <= n,
            find_line(status@, i as int, key@, skip_bad) == find_line(status@, 0, key@, skip_bad),
        decreases n - i,
    {
        let mut e = i;
        while e < n && status[e] != 10
            invariant
                n == status@.len(),
                i <= e <= n,
                line_end(status@, e as int) == line_end(status@, i as int),
            decreases n - e,
        {
            e = e + 1;
        }
        proof {
            lemma_line_end_bounds(status@, i as int);
        }
        let mut matched = k <= e - i;
        let mut j: usize = 0;
        while matched && j < k
            invariant
                n == status@.len(),
                k == key@.len(),
                i <= e,
                j <= k,
                matched ==> k <= e - i,
                matched ==> status@.subrange(i as int, i + j) == key@.subrange(0, j as int),
                !matched ==> !key_at(status@, i as int, key@),
                k > e - i ==> !matched,
                e == line_end(status@, i as int),
                e <= n,
            decreases k - j,
        {
            if status[i + j] != key[j] {
                proof {
                    if key_at(status@, i as int, key@) {
                        assert(status@.subrange(i as int, i + k)[j as int] == key@[j as int]);
                    }
                }
                matched = false;
                j = k;
            } else {
                assert(status@.subrange(i as int, i + j + 1) =~= status@.subrange(i as int, i + j)
                    .push(key@[j as int]));
                assert(key@.subrange(0, j + 1) =~= key@.subrange(0, j as int).push(key@[j as int]));
                j = j + 1;
            }
        }
        if matched {
            assert(key@.subrange(0, k as int) =~= key@);
            assert(key_at(status@, i as int, key@));
            let parsed = parse_field(status, i + k, e);
            match parsed {
                Some(kib) => {
                    return in_bytes(kib);
                },
                None => {
                    if !skip_bad {
                        return 0;
                    }
                },
            }
        }
        assert(find_line(status@, i as int, key@, skip_bad) == find_line(status@, e + 1, key@, skip_bad));
        if e == n {
            i = n;
        } else {
            i = e + 1;
        }
    }
    0
}

/// The peak memory in bytes that a process status text gives on the first
/// line that starts with `key`, or zero where there is none, its field does
/// not parse, or the figure overflows.
pub fn peak_memory_from_status(status: &[u8], key: &[u8]) -> (r: u64)
    ensures
        r as nat == status_peak(status@, key@, false),
{
    scan(status, key, false)
}

/// The peak memory in bytes that a process status text gives on the first
/// line that starts with `key` and whose field parses; lines with `key` that
/// do not parse are passed over. Zero where no such line exists or the
/// figure overflows.
pub fn peak_memory_first_parsed(status: &[u8], key: &[u8]) -> (r: u64)
    ensures
        r as nat == status_peak(status@, key@, true),
{
    scan(status, key, true)
}

} // verus!
