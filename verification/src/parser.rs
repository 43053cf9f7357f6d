//! The port-specification parser. A specification is a comma-separated list
//! of tokens; each token, once stripped of surrounding whitespace, is either
//! a single decimal port or an inclusive range `start-end`. Empty tokens are
//! skipped, port `0` is rejected, and the result is the ascending,
//! deduplicated list of every port named.

use vstd::prelude::*;

use crate::text::{is_space, all_digits, digits_val, trimmed, trim_front, trim_back, first_at,
    lemma_first_at, lemma_digits_val_prefix_le};

verus! {

/// Why a port specification was rejected.
#[derive(Clone, Copy, Debug, PartialEq, Eq, Structural)]
pub enum ParseError {
    /// A token (or range bound) is not a decimal number below 65536.
    InvalidPort,
    /// A range's start exceeds its end.
    InvalidRange,
    /// Port 0 was named; it is not a valid listening port.
    ZeroPort,
}

impl ParseError {
    /// A human-readable reason, for callers that surface the failure.
    pub fn describe(&self) -> (r: String)
        ensures
            *self == ParseError::InvalidPort ==> r@ == "invalid port"@,
            *self == ParseError::InvalidRange ==> r@ == "invalid range: start exceeds end"@,
            *self == ParseError::ZeroPort ==> r@ == "port 0 is not valid"@,
    {
        match self {
            ParseError::InvalidPort => "invalid port".to_owned(),
            ParseError::InvalidRange => "invalid range: start exceeds end".to_owned(),
            ParseError::ZeroPort => "port 0 is not valid".to_owned(),
        }
    }
}

/// The pieces of `s` between commas, in order; `n` commas give `n + 1`
/// pieces, so an input without commas is a single piece.
pub open spec fn split_commas(s: Seq<char>) -> Seq<Seq<char>>
    decreases s.len(),
{
    let i = first_at(s, ',');
    if 0 <= i < s.len() {
        seq![s.subrange(0, i)] + split_commas(s.subrange(i + 1, s.len() as int))
    } else {
        seq![s]
    }
}

/// The port a digit token names: its value, if the token is all digits and
/// the value fits in 16 bits.
pub open spec fn token_uint(t: Seq<char>) -> Option<u16> {
    if all_digits(t) && digits_val(t) <= 65535 {
        Some(digits_val(t) as u16)
    } else {
        None
    }
}

/// The ports a non-empty trimmed token names, or the error it raises.
/// A token with a hyphen is an inclusive range; the range check precedes
/// the zero check, so `10-0` is an invalid range, not a zero port.
pub open spec fn token_ports(t: Seq<char>) -> Result<Set<u16>, ParseError> {
    let h = first_at(t, '-');
    if 0 <= h < t.len() {
        let a = token_uint(t.subrange(0, h));
        let b = token_uint(t.subrange(h + 1, t.len() as int));
        if a is None || b is None {
            Err(ParseError::InvalidPort)
        } else if a->0 > b->0 {
            Err(ParseError::InvalidRange)
        } else if a->0 == 0 || b->0 == 0 {
            Err(ParseError::ZeroPort)
        } else {
            Ok(Set::new(|x: u16| a->0 <= x <= b->0))
        }
    } else {
        match token_uint(t) {
            None => Err(ParseError::InvalidPort),
            Some(p) => if p == 0 {
                Err(ParseError::ZeroPort)
            } else {
                Ok(Set::new(|x: u16| x == p))
            },
        }
    }
}

/// The ports a raw (untrimmed) token names: whitespace is stripped and an
/// empty remainder names no ports at all.
pub open spec fn token_sets(raw: Seq<char>) -> Result<Set<u16>, ParseError> {
    let t = trimmed(raw);
    if t.len() == 0 {
        Ok(Set::empty())
    } else {
        token_ports(t)
    }
}

/// Union of the ports named by a list of tokens, stopping at the first
/// (leftmost) token in error.
pub open spec fn parse_tokens(ts: Seq<Seq<char>>) -> Result<Set<u16>, ParseError>
    decreases ts.len(),
{
    if ts.len() == 0 {
        Ok(Set::empty())
    } else {
        match token_sets(ts[0]) {
            Err(e) => Err(e),
            Ok(ps) => match parse_tokens(ts.drop_first()) {
                Err(e) => Err(e),
                Ok(qs) => Ok(ps.union(qs)),
            },
        }
    }
}

/// The set of ports a whole specification names, or its first error.
pub open spec fn spec_ports(s: Seq<char>) -> Result<Set<u16>, ParseError> {
    parse_tokens(split_commas(s))
}

/// Strictly ascending, hence free of duplicates.
pub open spec fn strictly_ascending(v: Seq<u16>) -> bool {
    forall|i: int, j: int| 0 <= i < j < v.len() ==> v[i] < v[j]
}

/// A strictly ascending list of ports holds no port twice.
pub proof fn lemma_ascending_no_duplicates(v: Seq<u16>)
    requires
        strictly_ascending(v),
    ensures
        v.no_duplicates(),
{
    assert forall|i: int, j: int|
        0 <= i < v.len() && 0 <= j < v.len() && i != j implies v[i] != v[j] by {
        if i < j {
            assert(v[i] < v[j]);
        } else {
            assert(v[j] < v[i]);
        }
    }
}

fn char_is_space(c: char) -> (r: bool)
    ensures
        r == is_space(c),
{
    c == ' ' || c == '\t' || c == '\n' || c == '\r'
}

fn char_is_digit(c: char) -> (r: bool)
    ensures
        r == crate::text::is_digit(c),
{
    '0' <= c && c <= '9'
}

/// The characters of `s`, one slot each.
fn collect_chars(s: &str) -> (cv: Vec<char>)
    ensures
        cv@ == s@,
{
    let n = s.unicode_len();
    let mut cv: Vec<char> = Vec::new();
    let mut i: usize = 0;
    while i < n
        invariant
            i <= n,
            n == s@.len(),
            cv@ =~= s@.subrange(0, i as int),
        decreases n - i,
    {
        cv.push(s.get_char(i));
        i = i + 1;
    }
    proof {
        assert(cv@ =~= s@);
    }
    cv
}

/// First position of `target` in `cv[from..to]`, or `to` if it is absent.
fn scan_for(cv: &Vec<char>, from: usize, to: usize, target: char) -> (j: usize)
    requires
        from <= to <= cv@.len(),
    ensures
        from <= j <= to,
        forall|k: int| from <= k < j ==> cv@[k] != target,
        j < to ==> cv@[j as int] == target,
    decreases to - from,
{
    let mut j: usize = from;
    while j < to && cv[j] != target
        invariant
            from <= j <= to,
            to <= cv@.len(),
            forall|k: int| from <= k < j ==> cv@[k] != target,
        decreases to - j,
    {
        j = j + 1;
    }
    j
}

/// Bounds of `cv[from..to]` with surrounding whitespace stripped.
fn trim_window(cv: &Vec<char>, from: usize, to: usize) -> (r: (usize, usize))
    requires
        from <= to <= cv@.len(),
    ensures
        from <= r.0 <= r.1 <= to,
        cv@.subrange(r.0 as int, r.1 as int) == trimmed(cv@.subrange(from as int, to as int)),
{
    let ghost s0 = cv@.subrange(from as int, to as int);
    let mut a: usize = from;
    while a < to && char_is_space(cv[a])
        invariant
            from <= a <= to,
            to <= cv@.len(),
            trim_front(s0) == trim_front(cv@.subrange(a as int, to as int)),
        decreases to - a,
    {
        proof {
            let w = cv@.subrange(a as int, to as int);
            assert(w[0] == cv@[a as int]);
            assert(w.drop_first() =~= cv@.subrange(a as int + 1, to as int));
        }
        a = a + 1;
    }
    proof {
        if a == to {
            assert(cv@.subrange(a as int, to as int) =~= Seq::<char>::empty());
        }
        assert(trim_front(s0) == cv@.subrange(a as int, to as int));
    }
    let mut b: usize = to;
    while b > a && char_is_space(cv[b - 1])
        invariant
            a <= b <= to,
            to <= cv@.len(),
            trim_back(cv@.subrange(a as int, to as int)) == trim_back(cv@.subrange(a as int, b as int)),
        decreases b,
    {
        proof {
            let w = cv@.subrange(a as int, b as int);
            assert(w.last() == cv@[b - 1]);
            assert(w.drop_last() =~= cv@.subrange(a as int, b as int - 1));
        }
        b = b - 1;
    }
    proof {
        if b == a {
            assert(cv@.subrange(a as int, b as int) =~= Seq::<char>::empty());
        }
        assert(trimmed(s0) == cv@.subrange(a as int, b as int));
    }
    (a, b)
}

/// The port named by the digits in `cv[from..to]`, if they are digits and fit.
fn parse_uint_window(cv: &Vec<char>, from: usize, to: usize) -> (r: Option<u16>)
    requires
        from <= to <= cv@.len(),
    ensures
        r == token_uint(cv@.subrange(from as int, to as int)),
{
    let ghost t = cv@.subrange(from as int, to as int);
    if from == to {
        assert(!all_digits(t));
        return None;
    }
    let mut acc: u32 = 0;
    let mut i: usize = from;
    while i < to
        invariant
            from <= i <= to,
            to <= cv@.len(),
            t == cv@.subrange(from as int, to as int),
            acc <= 65535,
            forall|k: int| 0 <= k < i - from ==> crate::text::is_digit(#[trigger] t[k]),
            acc == digits_val(t.subrange(0, i - from)),
        decreases to - i,
    {
        let c = cv[i];
        assert(t[i - from] == c);
        if !char_is_digit(c) {
            assert(!all_digits(t));
            return None;
        }
        let d: u32 = (c as u32) - 48;
        proof {
            assert(d == crate::text::digit_val(c)) by {
                assert('0' as u32 == 48);
            }
            let pre = t.subrange(0, i - from);
            let ext = t.subrange(0, i + 1 - from);
            assert(ext.drop_last() =~= pre);
            assert(ext.last() == t[i - from]);
            assert(digits_val(ext) == digits_val(pre) * 10 + crate::text::digit_val(c));
        }
        acc = acc * 10 + d;
        if acc > 65535 {
            proof {
                if all_digits(t) && digits_val(t) <= 65535 {
                    lemma_digits_val_prefix_le(t, i + 1 - from);
                    assert(digits_val(t.subrange(0, i + 1 - from)) <= digits_val(t));
                    assert(false);
                }
            }
            return None;
        }
        i = i + 1;
    }
    proof {
        assert(t.subrange(0, to - from) =~= t);
        assert(all_digits(t));
        assert(digits_val(t) == acc);
    }
    Some(acc as u16)
}

/// The ports whose slot in the marking table is set.
pub open spec fn seen_set(sv: Seq<bool>) -> Set<u16> {
    Set::new(|x: u16| (x as int) < sv.len() && sv[x as int])
}

/// Handle one raw token `cv[from..to]`: trim it, skip it if empty, and
/// otherwise mark every port it names, or report its error.
fn mark_token(cv: &Vec<char>, from: usize, to: usize, seen: &mut Vec<bool>) -> (r: Result<
    (),
    ParseError,
>)
    requires
        from <= to <= cv@.len(),
        old(seen)@.len() == 65536,
        !old(seen)@[0],
    ensures
        final(seen)@.len() == 65536,
        !final(seen)@[0],
        r is Ok ==> token_sets(cv@.subrange(from as int, to as int)) is Ok,
        r is Ok ==> (forall|x: u16|
            final(seen)@[x as int] == (old(seen)@[x as int] || token_sets(
                cv@.subrange(from as int, to as int),
            )->Ok_0.contains(x))),
        r matches Err(e) ==> token_sets(cv@.subrange(from as int, to as int)) == Err::<
            Set<u16>,
            ParseError,
        >(e) && final(seen)@ == old(seen)@,
{
    let ghost raw = cv@.subrange(from as int, to as int);
    let (a, b) = trim_window(cv, from, to);
    let ghost t = trimmed(raw);
    assert(t == cv@.subrange(a as int, b as int));
    if a == b {
        proof {
            assert(t.len() == 0);
            assert(token_sets(raw) == Ok::<Set<u16>, ParseError>(Set::empty()));
            assert(forall|x: u16| !Set::<u16>::empty().contains(x));
        }
        return Ok(());
    }
    let h = scan_for(cv, a, b, '-');
    proof {
        assert forall|k: int| 0 <= k < h - a implies #[trigger] t[k] != '-' by {
            assert(t[k] == cv@[a + k]);
        }
        if h < b {
            assert(t[h - a] == cv@[h as int]);
        }
        lemma_first_at(t, '-', h - a);
    }
    if h < b {
        assert(first_at(t, '-') == h - a);
        let pa = parse_uint_window(cv, a, h);
        let pb = parse_uint_window(cv, h + 1, b);
        proof {
            assert(t.subrange(0, h - a) =~= cv@.subrange(a as int, h as int));
            assert(t.subrange(h - a + 1, t.len() as int) =~= cv@.subrange(h as int + 1, b as int));
        }
        if pa.is_none() || pb.is_none() {
            return Err(ParseError::InvalidPort);
        }
        let va = pa.unwrap();
        let vb = pb.unwrap();
        if va > vb {
            return Err(ParseError::InvalidRange);
        }
        if va == 0 {
            return Err(ParseError::ZeroPort);
        }
        let ghost ps = Set::new(|x: u16| va <= x <= vb);
        assert(token_sets(raw) == Ok::<Set<u16>, ParseError>(ps));
        let ghost pre = seen@;
        let mut q: u32 = va as u32;
        while q <= vb as u32
            invariant
                va as u32 <= q <= vb as u32 + 1,
                1 <= va,
                seen@.len() == 65536,
                vb < 65536,
                forall|x: u16|
                    #[trigger] seen@[x as int] == (pre[x as int] || (va <= x && (x as u32) < q)),
            decreases vb as u32 + 1 - q,
        {
            seen[q as usize] = true;
            q = q + 1;
        }
        proof {
            assert forall|x: u16| seen@[x as int] == (pre[x as int] || ps.contains(x)) by {
                assert(ps.contains(x) == (va <= x <= vb));
            }
            assert(!seen@[0]);
        }
        Ok(())
    } else {
        assert(first_at(t, '-') == -1);
        match parse_uint_window(cv, a, b) {
            None => Err(ParseError::InvalidPort),
            Some(p) => {
                if p == 0 {
                    Err(ParseError::ZeroPort)
                } else {
                    let ghost ps = Set::new(|x: u16| x == p);
                    assert(token_sets(raw) == Ok::<Set<u16>, ParseError>(ps));
                    seen[p as usize] = true;
                    proof {
                        assert(forall|x: u16|
                            #[trigger] seen@[x as int] == (old(seen)@[x as int] || ps.contains(x)));
                    }
                    Ok(())
                }
            },
        }
    }
}

/// Parse a port specification. On success the result is the ascending,
/// duplicate-free list of every port the specification names; otherwise it
/// is the first error, reading tokens left to right.
pub fn parse_port_spec(s: &str) -> (r: Result<Vec<u16>, ParseError>)
    ensures
        match r {
            Ok(v) => spec_ports(s@) matches Ok(ps) && ps == v@.to_set() && strictly_ascending(v@)
                && (forall|i: int| 0 <= i < v@.len() ==> 1 <= #[trigger] v@[i]),
            Err(e) => spec_ports(s@) == Err::<Set<u16>, ParseError>(e),
        },
{
    let cv = collect_chars(s);
    let n = cv.len();
    let mut seen: Vec<bool> = vec![false; 65536];
    proof {
        assert(s@.subrange(0, n as int) =~= s@);
        assert(seen_set(seen@) =~= Set::<u16>::empty());
        match parse_tokens(split_commas(s@)) {
            Ok(qs) => {
                assert(Set::<u16>::empty().union(qs) =~= qs);
            },
            Err(e) => {},
        }
    }
    let mut p: usize = 0;
    while p < n
        invariant
            p <= n,
            n == cv@.len(),
            cv@ == s@,
            seen@.len() == 65536,
            !seen@[0],
            (match parse_tokens(split_commas(s@.subrange(p as int, n as int))) {
                Ok(qs) => spec_ports(s@) == Ok::<Set<u16>, ParseError>(seen_set(seen@).union(qs)),
                Err(e) => spec_ports(s@) == Err::<Set<u16>, ParseError>(e),
            }),
        decreases n - p,
    {
        let ghost rem = s@.subrange(p as int, n as int);
        let j = scan_for(&cv, p, n, ',');
        let ghost tok = s@.subrange(p as int, j as int);
        proof {
            assert forall|k: int| 0 <= k < j - p implies #[trigger] rem[k] != ',' by {
                assert(rem[k] == cv@[p + k]);
            }
            if j < n {
                assert(rem[j - p] == cv@[j as int]);
            }
            lemma_first_at(rem, ',', j - p);
            if j < n {
                assert(rem.subrange(0, j - p) =~= tok);
                assert(rem.subrange(j - p + 1, rem.len() as int) =~= s@.subrange(
                    j as int + 1,
                    n as int,
                ));
                let ts = split_commas(s@.subrange(j as int + 1, n as int));
                assert(split_commas(rem) == seq![tok] + ts);
                assert((seq![tok] + ts)[0] == tok);
                assert((seq![tok] + ts).drop_first() =~= ts);
            } else {
                assert(split_commas(rem) == seq![rem]);
                assert(seq![rem][0] == rem);
                assert(rem == tok);
                assert(seq![rem].drop_first() =~= Seq::<Seq<char>>::empty());
            }
        }
        let ghost pre = seen@;
        match mark_token(&cv, p, j, &mut seen) {
            Err(e) => {
                proof {
                    assert(token_sets(tok) == Err::<Set<u16>, ParseError>(e));
                    assert(parse_tokens(split_commas(rem)) == Err::<Set<u16>, ParseError>(e));
                }
                return Err(e);
            },
            Ok(u) => {},
        }
        let ghost ps = token_sets(tok)->Ok_0;
        proof {
            assert(token_sets(cv@.subrange(p as int, j as int)) is Ok);
            assert(tok == cv@.subrange(p as int, j as int));
            assert(seen_set(seen@) =~= seen_set(pre).union(ps)) by {
                assert(forall|x: u16| seen@[x as int] == (pre[x as int] || ps.contains(x)));
            }
        }
        if j < n {
            proof {
                let ts = split_commas(s@.subrange(j as int + 1, n as int));
                match parse_tokens(ts) {
                    Ok(qs) => {
                        assert(parse_tokens(split_commas(rem)) == Ok::<Set<u16>, ParseError>(
                            ps.union(qs),
                        ));
                        assert(seen_set(pre).union(ps.union(qs)) =~= seen_set(seen@).union(qs));
                    },
                    Err(e) => {
                        assert(parse_tokens(split_commas(rem)) == Err::<Set<u16>, ParseError>(e));
                    },
                }
            }
            p = j + 1;
        } else {
            proof {
                assert(parse_tokens(Seq::<Seq<char>>::empty()) == Ok::<Set<u16>, ParseError>(
                    Set::empty(),
                ));
                assert(parse_tokens(split_commas(rem)) == Ok::<Set<u16>, ParseError>(ps.union(
                    Set::empty(),
                )));
                assert(s@.subrange(n as int, n as int) =~= Seq::<char>::empty());
                let et = Seq::<char>::empty();
                assert(trimmed(et).len() == 0);
                assert(token_sets(et) == Ok::<Set<u16>, ParseError>(Set::<u16>::empty()));
                assert(split_commas(et) == seq![et]);
                assert(seq![et][0] == et);
                assert(seq![et].drop_first() =~= Seq::<Seq<char>>::empty());
                assert(parse_tokens(split_commas(et)) == Ok::<Set<u16>, ParseError>(Set::<
                    u16,
                >::empty().union(Set::empty())));
                assert(Set::<u16>::empty().union(Set::empty()) =~= Set::<u16>::empty());
                assert(seen_set(pre).union(ps.union(Set::empty())) =~= seen_set(seen@).union(
                    Set::empty(),
                ));
            }
            p = n;
        }
    }
    proof {
        assert(s@.subrange(n as int, n as int) =~= Seq::<char>::empty());
        let et = Seq::<char>::empty();
        assert(trimmed(et).len() == 0);
        assert(token_sets(et) == Ok::<Set<u16>, ParseError>(Set::<u16>::empty()));
        assert(split_commas(et) == seq![et]);
        assert(seq![et][0] == et);
        assert(seq![et].drop_first() =~= Seq::<Seq<char>>::empty());
        assert(parse_tokens(Seq::<Seq<char>>::empty()) == Ok::<Set<u16>, ParseError>(Set::empty()));
        assert(parse_tokens(split_commas(et)) == Ok::<Set<u16>, ParseError>(Set::<
            u16,
        >::empty().union(Set::empty())));
        assert(seen_set(seen@).union(Set::<u16>::empty().union(Set::empty())) =~= seen_set(seen@));
        assert(spec_ports(s@) == Ok::<Set<u16>, ParseError>(seen_set(seen@)));
    }
    let mut v: Vec<u16> = Vec::new();
    let mut x: u32 = 1;
    while x <= 65535
        invariant
            1 <= x <= 65536,
            seen@.len() == 65536,
            strictly_ascending(v@),
            forall|i: int| 0 <= i < v@.len() ==> 1 <= #[trigger] v@[i] && (v@[i] as u32) < x,
            forall|q: u16|
                #[trigger] v@.to_set().contains(q) <==> (seen_set(seen@).contains(q) && (
                q as u32) < x),
        decreases 65536 - x,
    {
        if seen[x as usize] {
            let ghost pv = v@;
            v.push(x as u16);
            proof {
                assert(v@ =~= pv.push(x as u16));
                assert forall|q: u16| #[trigger] v@.to_set().contains(q) <==> (seen_set(
                    seen@,
                ).contains(q) && (q as u32) < x + 1) by {
                    assert(v@.to_set().contains(q) == v@.contains(q));
                    assert(pv.to_set().contains(q) == pv.contains(q));
                    if q as u32 == x {
                        assert(v@[v@.len() - 1] == q);
                        assert(v@.contains(q));
                        assert(seen_set(seen@).contains(q));
                    } else {
                        assert(v@.contains(q) == pv.contains(q)) by {
                            if pv.contains(q) {
                                let i = choose|i: int| 0 <= i < pv.len() && pv[i] == q;
                                assert(v@[i] == q);
                            }
                            if v@.contains(q) {
                                let i = choose|i: int| 0 <= i < v@.len() && v@[i] == q;
                                assert(i < pv.len() ==> pv[i] == q);
                            }
                        }
                    }
                }
                assert(strictly_ascending(v@)) by {
                    assert(forall|i: int| 0 <= i < pv.len() ==> (#[trigger] pv[i] as u32) < x);
                }
            }
        } else {
            proof {
                assert forall|q: u16| #[trigger] v@.to_set().contains(q) <==> (seen_set(
                    seen@,
                ).contains(q) && (q as u32) < x + 1) by {
                    if q as u32 == x {
                        assert(!seen_set(seen@).contains(q));
                    }
                }
            }
        }
        x = x + 1;
    }
    proof {
        assert(v@.to_set() =~= seen_set(seen@));
    }
    Ok(v)
}

/// The canonical text of a port list: the decimal numerals of its entries,
/// joined by commas.
pub open spec fn join_ports(ps: Seq<u16>) -> Seq<char>
    decreases ps.len(),
{
    if ps.len() == 0 {
        Seq::empty()
    } else if ps.len() == 1 {
        crate::text::dec_digits(ps[0] as nat)
    } else {
        crate::text::dec_digits(ps[0] as nat) + seq![','] + join_ports(ps.drop_first())
    }
}

/// Digit strings hold no comma, no hyphen and no whitespace.
proof fn lemma_digits_plain(t: Seq<char>)
    requires
        all_digits(t),
    ensures
        forall|j: int| 0 <= j < t.len() ==> #[trigger] t[j] != ',',
        forall|j: int| 0 <= j < t.len() ==> #[trigger] t[j] != '-',
        forall|j: int| 0 <= j < t.len() ==> !is_space(#[trigger] t[j]),
{
    assert forall|j: int| 0 <= j < t.len() implies #[trigger] t[j] != ',' && t[j] != '-'
        && !is_space(t[j]) by {
        assert(crate::text::is_digit(t[j]));
    }
}

/// The numeral of a nonzero port is one whole token naming exactly that port.
proof fn lemma_numeral_token(p: u16)
    requires
        1 <= p,
    ensures
        token_sets(crate::text::dec_digits(p as nat)) == Ok::<Set<u16>, ParseError>(
            Set::new(|x: u16| x == p),
        ),
{
    let t = crate::text::dec_digits(p as nat);
    crate::text::lemma_dec_digits_val(p as nat);
    lemma_digits_plain(t);
    assert(trimmed(t) == t);
    lemma_first_at(t, '-', t.len() as int);
    assert(first_at(t, '-') == -1);
    assert(token_uint(t) == Some(p));
}

/// Re-parsing the canonical comma-joined text of any list of nonzero ports
/// succeeds and names exactly the ports of the list. Together with the
/// contract of `parse_port_spec` this makes parsing idempotent: parsing the
/// canonical text of a successful parse yields the same set of ports.
pub proof fn lemma_parse_round_trip(ps: Seq<u16>)
    requires
        forall|i: int| 0 <= i < ps.len() ==> 1 <= #[trigger] ps[i],
    ensures
        spec_ports(join_ports(ps)) == Ok::<Set<u16>, ParseError>(ps.to_set()),
    decreases ps.len(),
{
    let s = join_ports(ps);
    if ps.len() == 0 {
        let et = Seq::<char>::empty();
        assert(trimmed(et).len() == 0);
        assert(split_commas(et) == seq![et]);
        assert(seq![et][0] == et);
        assert(seq![et].drop_first() =~= Seq::<Seq<char>>::empty());
        assert(parse_tokens(Seq::<Seq<char>>::empty()) == Ok::<Set<u16>, ParseError>(Set::empty()));
        assert(spec_ports(s) == Ok::<Set<u16>, ParseError>(Set::<u16>::empty().union(Set::empty())));
        assert(Set::<u16>::empty().union(Set::empty()) =~= ps.to_set());
    } else if ps.len() == 1 {
        let p = ps[0];
        crate::text::lemma_dec_digits_val(p as nat);
        lemma_digits_plain(s);
        lemma_first_at(s, ',', s.len() as int);
        assert(first_at(s, ',') == -1);
        assert(split_commas(s) == seq![s]);
        lemma_numeral_token(p);
        assert(seq![s][0] == s);
        assert(seq![s].drop_first() =~= Seq::<Seq<char>>::empty());
        assert(parse_tokens(Seq::<Seq<char>>::empty()) == Ok::<Set<u16>, ParseError>(Set::empty()));
        assert(parse_tokens(seq![s]) == Ok::<Set<u16>, ParseError>(
            Set::new(|x: u16| x == p).union(Set::empty()),
        ));
        assert(Set::new(|x: u16| x == p).union(Set::empty()) =~= ps.to_set()) by {
            assert(ps.contains(p));
            assert forall|x: u16| ps.to_set().contains(x) implies x == p by {
                let i = choose|i: int| 0 <= i < ps.len() && ps[i] == x;
            }
        }
    } else {
        let p = ps[0];
        let d0 = crate::text::dec_digits(p as nat);
        let rest = join_ports(ps.drop_first());
        assert(s == d0 + seq![','] + rest);
        crate::text::lemma_dec_digits_val(p as nat);
        lemma_digits_plain(d0);
        assert forall|j: int| 0 <= j < d0.len() implies #[trigger] s[j] != ',' by {
            assert(s[j] == d0[j]);
        }
        assert(s[d0.len() as int] == ',');
        lemma_first_at(s, ',', d0.len() as int);
        assert(first_at(s, ',') == d0.len());
        assert(s.subrange(0, d0.len() as int) =~= d0);
        assert(s.subrange(d0.len() as int + 1, s.len() as int) =~= rest);
        assert(split_commas(s) == seq![d0] + split_commas(rest));
        lemma_numeral_token(p);
        assert(forall|i: int| 0 <= i < ps.drop_first().len() ==> 1 <= #[trigger] ps.drop_first()[i]);
        lemma_parse_round_trip(ps.drop_first());
        let ts = split_commas(rest);
        assert((seq![d0] + ts)[0] == d0);
        assert((seq![d0] + ts).drop_first() =~= ts);
        assert(parse_tokens(seq![d0] + ts) == Ok::<Set<u16>, ParseError>(
            Set::new(|x: u16| x == p).union(ps.drop_first().to_set()),
        ));
        assert(Set::new(|x: u16| x == p).union(ps.drop_first().to_set()) =~= ps.to_set()) by {
            assert forall|x: u16| ps.to_set().contains(x) implies Set::new(|y: u16| y == p).union(
                ps.drop_first().to_set(),
            ).contains(x) by {
                let i = choose|i: int| 0 <= i < ps.len() && ps[i] == x;
                if i > 0 {
                    assert(ps.drop_first()[i - 1] == x);
                    assert(ps.drop_first().contains(x));
                }
            }
            assert forall|x: u16| Set::new(|y: u16| y == p).union(
                ps.drop_first().to_set(),
            ).contains(x) implies ps.to_set().contains(x) by {
                if x == p {
                    assert(ps[0] == x);
                    assert(ps.contains(x));
                } else {
                    let i = choose|i: int| 0 <= i < ps.drop_first().len() && ps.drop_first()[i] == x;
                    assert(ps[i + 1] == x);
                    assert(ps.contains(x));
                }
            }
        }
    }
}

/// The canonical listing of a set of ports is unique: two strictly ascending
/// lists naming the same set of ports are the same list.
pub proof fn lemma_canonical_unique(a: Seq<u16>, b: Seq<u16>)
    requires
        strictly_ascending(a),
        strictly_ascending(b),
        a.to_set() == b.to_set(),
    ensures
        a == b,
    decreases a.len(),
{
    if a.len() == 0 {
        if b.len() > 0 {
            assert(b.contains(b[0]));
            assert(a.to_set().contains(b[0]));
            assert(a.contains(b[0]));
        }
        assert(a =~= b);
    } else if b.len() == 0 {
        assert(a.contains(a[0]));
        assert(b.to_set().contains(a[0]));
        assert(b.contains(a[0]));
    } else {
        assert(a[0] == b[0]) by {
            assert(a.contains(a[0]));
            assert(b.to_set().contains(a[0]));
            let j = choose|j: int| 0 <= j < b.len() && b[j] == a[0];
            assert(b[0] <= b[j]);
            assert(b.contains(b[0]));
            assert(a.to_set().contains(b[0]));
            let i = choose|i: int| 0 <= i < a.len() && a[i] == b[0];
            assert(a[0] <= a[i]);
        }
        let at = a.drop_first();
        let bt = b.drop_first();
        assert(strictly_ascending(at)) by {
            assert forall|i: int, j: int| 0 <= i < j < at.len() implies at[i] < at[j] by {
                assert(at[i] == a[i + 1] && at[j] == a[j + 1]);
            }
        }
        assert(strictly_ascending(bt)) by {
            assert forall|i: int, j: int| 0 <= i < j < bt.len() implies bt[i] < bt[j] by {
                assert(bt[i] == b[i + 1] && bt[j] == b[j + 1]);
            }
        }
        assert(at.to_set() =~= bt.to_set()) by {
            assert forall|x: u16| at.to_set().contains(x) implies bt.to_set().contains(x) by {
                let i = choose|i: int| 0 <= i < at.len() && at[i] == x;
                assert(a[i + 1] == x);
                assert(a[0] < x);
                assert(a.contains(x));
                assert(b.to_set().contains(x));
                let j = choose|j: int| 0 <= j < b.len() && b[j] == x;
                assert(j != 0);
                assert(bt[j - 1] == x);
                assert(bt.contains(x));
            }
            assert forall|x: u16| bt.to_set().contains(x) implies at.to_set().contains(x) by {
                let i = choose|i: int| 0 <= i < bt.len() && bt[i] == x;
                assert(b[i + 1] == x);
                assert(b[0] < x);
                assert(b.contains(x));
                assert(a.to_set().contains(x));
                let j = choose|j: int| 0 <= j < a.len() && a[j] == x;
                assert(j != 0);
                assert(at[j - 1] == x);
                assert(at.contains(x));
            }
        }
        lemma_canonical_unique(at, bt);
        assert(a =~= b) by {
            assert forall|i: int| 0 <= i < a.len() implies a[i] == b[i] by {
                if i > 0 {
                    assert(a[i] == at[i - 1] && b[i] == bt[i - 1]);
                }
            }
        }
    }
}

/// Parsing is idempotent: if a specification parses to a set of ports and a
/// canonical listing of that set is joined back into text, parsing the text
/// gives the same result as parsing the original specification.
pub proof fn lemma_parse_idempotent(s: Seq<char>, v: Seq<u16>)
    requires
        spec_ports(s) matches Ok(ps) && ps == v.to_set(),
        forall|i: int| 0 <= i < v.len() ==> 1 <= #[trigger] v[i],
    ensures
        spec_ports(join_ports(v)) == spec_ports(s),
{
    lemma_parse_round_trip(v);
}

} // verus!
