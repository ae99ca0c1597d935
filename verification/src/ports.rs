//! The port set resolver: turns a port specification string into the
//! concrete ordered sequence of ports to probe.
//!
//! A specification is split on `,` into tokens. The token `all` expands
//! to the full range 1..=65535; a token with a single `-` is an inclusive
//! range `a-b` (empty when reversed); any other token is a single port
//! literal. A token that does not parse as a port in [1, 65535] is
//! silently dropped: resolution is lenient by design and never fails.
//! Order and duplicates are preserved; nothing is sorted or deduplicated.
use vstd::prelude::*;
use vstd::string::StrSliceExecFns;

verus! {

/// True of the ten ASCII decimal digit characters.
pub open spec fn is_digit_char(c: char) -> bool {
    48 <= c as u32 <= 57
}

/// The numeric value of one ASCII decimal digit.
pub open spec fn digit_char_val(c: char) -> nat {
    (c as u32 - 48) as nat
}

/// The value of a sequence of decimal digits, most significant first.
pub open spec fn spec_digits_value(t: Seq<char>) -> nat
    decreases t.len(),
{
    if t.len() == 0 {
        0
    } else {
        spec_digits_value(t.drop_last()) * 10 + digit_char_val(t.last())
    }
}

/// The digit part of a port literal: everything after one optional
/// leading `+`.
pub open spec fn spec_token_digits(t: Seq<char>) -> Seq<char> {
    if t.len() > 0 && t[0] == '+' {
        t.drop_first()
    } else {
        t
    }
}

/// Whether a digit part denotes a port: at least one character, all of
/// them decimal digits, with a value in [1, 65535].
pub open spec fn spec_is_port_number(d: Seq<char>) -> bool {
    &&& d.len() > 0
    &&& forall|i: int| 0 <= i < d.len() ==> is_digit_char(#[trigger] d[i])
    &&& 1 <= spec_digits_value(d) <= 65535
}

/// The port a token denotes, if any: an optional leading `+`, then at
/// least one decimal digit, with a value in [1, 65535]. Anything else
/// (empty, stray characters, zero, out of range) denotes no port.
pub open spec fn spec_port_value(t: Seq<char>) -> Option<u16> {
    if spec_is_port_number(spec_token_digits(t)) {
        Some(spec_digits_value(spec_token_digits(t)) as u16)
    } else {
        None
    }
}

/// Splitting a sequence on a separator, as the resolver does on `,` and
/// `-`: the empty sequence yields one empty piece, and every separator
/// opens a new piece.
pub open spec fn spec_split(s: Seq<char>, sep: char) -> Seq<Seq<char>>
    decreases s.len(),
{
    if s.len() == 0 {
        seq![Seq::<char>::empty()]
    } else if s[0] == sep {
        seq![Seq::<char>::empty()] + spec_split(s.drop_first(), sep)
    } else {
        let rest = spec_split(s.drop_first(), sep);
        seq![seq![s[0]] + rest[0]] + rest.drop_first()
    }
}

/// A split always has at least one piece, and at least two when the
/// separator occurs.
pub proof fn lemma_split_len(s: Seq<char>, sep: char)
    ensures
        spec_split(s, sep).len() >= 1,
        s.contains(sep) ==> spec_split(s, sep).len() >= 2,
    decreases s.len(),
{
    if s.len() == 0 {
    } else {
        lemma_split_len(s.drop_first(), sep);
        if s[0] != sep && s.contains(sep) {
            let i = choose|i: int| 0 <= i < s.len() && s[i] == sep;
            assert(s.drop_first()[i - 1] == sep);
            assert(s.drop_first().contains(sep));
        }
    }
}

/// Splitting at the first separator occurrence: the piece before it,
/// then the split of what follows it.
pub proof fn lemma_split_at_first_sep(s: Seq<char>, sep: char, i: int)
    requires
        0 <= i < s.len(),
        s[i] == sep,
        forall|j: int| 0 <= j < i ==> s[j] != sep,
    ensures
        spec_split(s, sep) == seq![s.take(i)] + spec_split(s.skip(i + 1), sep),
    decreases i,
{
    if i == 0 {
        assert(s.take(0) =~= Seq::<char>::empty());
        assert(s.skip(1) =~= s.drop_first());
        assert(spec_split(s, sep) =~= seq![s.take(0)] + spec_split(s.skip(1), sep));
    } else {
        let d = s.drop_first();
        assert(d[i - 1] == sep);
        lemma_split_at_first_sep(d, sep, i - 1);
        let rest = spec_split(d, sep);
        assert(rest == seq![d.take(i - 1)] + spec_split(d.skip(i), sep));
        assert(rest[0] == d.take(i - 1));
        assert(seq![s[0]] + d.take(i - 1) =~= s.take(i));
        assert(rest.drop_first() =~= spec_split(d.skip(i), sep));
        assert(d.skip(i) =~= s.skip(i + 1));
        assert(spec_split(s, sep) =~= seq![s.take(i)] + spec_split(s.skip(i + 1), sep));
    }
}

/// Splitting a sequence free of the separator yields that one piece.
pub proof fn lemma_split_no_sep(s: Seq<char>, sep: char)
    requires
        forall|j: int| 0 <= j < s.len() ==> s[j] != sep,
    ensures
        spec_split(s, sep) == seq![s],
    decreases s.len(),
{
    if s.len() == 0 {
        assert(s =~= Seq::<char>::empty());
    } else {
        let d = s.drop_first();
        lemma_split_no_sep(d, sep);
        let rest = spec_split(d, sep);
        assert(rest[0] == d);
        assert(seq![s[0]] + d =~= s);
        assert(rest.drop_first() =~= Seq::<Seq<char>>::empty());
        assert(spec_split(s, sep) =~= seq![s]);
    }
}

/// The inclusive ascending range of ports from `lo` to `hi`; empty when
/// the bounds are reversed.
pub open spec fn spec_range_ports(lo: u16, hi: u16) -> Seq<u16> {
    if lo <= hi {
        Seq::new((hi - lo + 1) as nat, |k: int| (lo + k) as u16)
    } else {
        Seq::empty()
    }
}

/// The ports one comma-separated token contributes.
pub open spec fn spec_token_ports(t: Seq<char>) -> Seq<u16> {
    if t == seq!['a', 'l', 'l'] {
        spec_range_ports(1, 65535)
    } else if t.contains('-') {
        let parts = spec_split(t, '-');
        if parts.len() == 2 {
            match (spec_port_value(parts[0]), spec_port_value(parts[1])) {
                (Some(lo), Some(hi)) => spec_range_ports(lo, hi),
                _ => Seq::empty(),
            }
        } else {
            Seq::empty()
        }
    } else {
        match spec_port_value(t) {
            Some(p) => seq![p],
            None => Seq::empty(),
        }
    }
}

/// The concatenation of every token's contribution, in token order.
pub open spec fn spec_tokens_ports(toks: Seq<Seq<char>>) -> Seq<u16>
    decreases toks.len(),
{
    if toks.len() == 0 {
        Seq::empty()
    } else {
        spec_token_ports(toks[0]) + spec_tokens_ports(toks.drop_first())
    }
}

/// The resolved Port Sequence of a specification string.
pub open spec fn spec_parse_ports(s: Seq<char>) -> Seq<u16> {
    spec_tokens_ports(spec_split(s, ','))
}

/// The port value denoted by `chars[start..end]`, per `spec_port_value`.
#[verifier::loop_isolation(false)]
fn parse_port_value(chars: &Vec<char>, start: usize, end: usize) -> (r: Option<u16>)
    requires
        start <= end <= chars@.len(),
    ensures
        r == spec_port_value(chars@.subrange(start as int, end as int)),
{
    let ghost t = chars@.subrange(start as int, end as int);
    let dstart: usize = if start < end && chars[start] == '+' {
        start + 1
    } else {
        start
    };
    let ghost digits = chars@.subrange(dstart as int, end as int);
    proof {
        if start < end && t[0] == '+' {
            assert(t.drop_first() =~= digits);
        } else {
            assert(t =~= digits);
        }
        assert(spec_token_digits(t) == digits);
    }
    if dstart == end {
        return None;
    }
    let mut acc: u32 = 0;
    let mut i: usize = dstart;
    while i < end
        invariant
            dstart <= i <= end <= chars@.len(),
            digits == chars@.subrange(dstart as int, end as int),
            forall|j: int| dstart <= j < i ==> is_digit_char(#[trigger] chars@[j]),
            acc <= 65536,
            spec_digits_value(chars@.subrange(dstart as int, i as int)) <= 65535 ==> acc
                == spec_digits_value(chars@.subrange(dstart as int, i as int)),
            spec_digits_value(chars@.subrange(dstart as int, i as int)) > 65535 ==> acc == 65536,
        decreases end - i,
    {
        let c = chars[i];
        let u = c as u32;
        if u < 48 || u > 57 {
            proof {
                assert(digits[i - dstart as int] == chars@[i as int]);
                assert(!is_digit_char(digits[i - dstart as int]));
                assert(!spec_is_port_number(digits));
            }
            return None;
        }
        let d = u - 48;
        let next = acc * 10 + d;
        proof {
            let pre = chars@.subrange(dstart as int, i as int);
            let post = chars@.subrange(dstart as int, i as int + 1);
            assert(post.drop_last() =~= pre);
            assert(post.last() == c);
            assert(spec_digits_value(post) == spec_digits_value(pre) * 10 + digit_char_val(c));
        }
        if next > 65535 {
            acc = 65536;
        } else {
            acc = next;
        }
        i += 1;
    }
    proof {
        assert(chars@.subrange(dstart as int, i as int) =~= digits);
        assert(forall|j: int| 0 <= j < digits.len() ==> is_digit_char(#[trigger] digits[j]));
    }
    if 1 <= acc && acc <= 65535 {
        Some(acc as u16)
    } else {
        None
    }
}

/// A token value, when there is one, lies in [1, 65535].
proof fn lemma_port_value_in_range(t: Seq<char>)
    ensures
        spec_port_value(t) is Some ==> 1 <= spec_port_value(t)->0 <= 65535,
{
}

/// Every port of an inclusive range starting at 1 or above lies in
/// [1, 65535].
proof fn lemma_range_ports_in_range(lo: u16, hi: u16)
    requires
        lo >= 1,
    ensures
        forall|k: int|
            0 <= k < spec_range_ports(lo, hi).len() ==> 1 <= #[trigger] spec_range_ports(lo, hi)[k]
                <= 65535,
{
    if lo <= hi {
        assert forall|k: int|
            0 <= k < spec_range_ports(lo, hi).len() implies 1 <= #[trigger] spec_range_ports(
            lo,
            hi,
        )[k] <= 65535 by {
            assert(spec_range_ports(lo, hi)[k] == (lo + k) as u16);
            assert(1 <= lo + k <= hi);
        }
    }
}

/// Any port a single token contributes lies in [1, 65535].
proof fn lemma_token_ports_in_range(t: Seq<char>)
    ensures
        forall|i: int|
            0 <= i < spec_token_ports(t).len() ==> 1 <= #[trigger] spec_token_ports(t)[i] <= 65535,
{
    if t == seq!['a', 'l', 'l'] {
        lemma_range_ports_in_range(1, 65535);
    } else if t.contains('-') {
        let parts = spec_split(t, '-');
        if parts.len() == 2 {
            lemma_port_value_in_range(parts[0]);
            lemma_port_value_in_range(parts[1]);
            match (spec_port_value(parts[0]), spec_port_value(parts[1])) {
                (Some(lo), Some(hi)) => {
                    lemma_range_ports_in_range(lo, hi);
                },
                _ => {},
            }
        }
    } else {
        lemma_port_value_in_range(t);
    }
}

/// Any port the tokens together contribute lies in [1, 65535].
proof fn lemma_tokens_ports_in_range(toks: Seq<Seq<char>>)
    ensures
        forall|i: int|
            0 <= i < spec_tokens_ports(toks).len() ==> 1 <= #[trigger] spec_tokens_ports(toks)[i]
                <= 65535,
    decreases toks.len(),
{
    if toks.len() > 0 {
        lemma_token_ports_in_range(toks[0]);
        lemma_tokens_ports_in_range(toks.drop_first());
        let head = spec_token_ports(toks[0]);
        let tail = spec_tokens_ports(toks.drop_first());
        assert forall|i: int|
            0 <= i < spec_tokens_ports(toks).len() implies 1 <= #[trigger] spec_tokens_ports(
            toks,
        )[i] <= 65535 by {
            if i < head.len() {
                assert(spec_tokens_ports(toks)[i] == head[i]);
            } else {
                assert(spec_tokens_ports(toks)[i] == tail[i - head.len()]);
            }
        }
    }
}

/// For every specification string, the resolved Port Sequence contains
/// only values in [1, 65535].
pub proof fn lemma_resolved_ports_in_range(s: Seq<char>)
    ensures
        forall|i: int|
            0 <= i < spec_parse_ports(s).len() ==> 1 <= #[trigger] spec_parse_ports(s)[i] <= 65535,
{
    lemma_tokens_ports_in_range(spec_split(s, ','));
}

/// The characters of a string, in order, as a vector.
fn str_chars(s: &str) -> (r: Vec<char>)
    ensures
        r@ == s@,
{
    let n = s.unicode_len();
    let mut r: Vec<char> = Vec::new();
    let mut i: usize = 0;
    while i < n
        invariant
            n == s@.len(),
            i <= n,
            r@ == s@.take(i as int),
        decreases n - i,
    {
        let c = s.get_char(i);
        r.push(c);
        proof {
            assert(r@ =~= s@.take(i + 1));
        }
        i += 1;
    }
    proof {
        assert(r@ =~= s@);
    }
    r
}

/// Append the inclusive range `lo..=hi` (nothing when reversed).
#[verifier::loop_isolation(false)]
fn append_range(result: &mut Vec<u16>, lo: u16, hi: u16)
    ensures
        final(result)@ == old(result)@ + spec_range_ports(lo, hi),
{
    let ghost orig = result@;
    if lo > hi {
        proof {
            assert(result@ =~= orig + spec_range_ports(lo, hi));
        }
        return;
    }
    let mut p: u32 = lo as u32;
    while p <= hi as u32
        invariant
            lo as u32 <= p <= hi as u32 + 1,
            result@ == orig + spec_range_ports(lo, hi).take(p as int - lo as int),
        decreases hi as u32 + 1 - p,
    {
        result.push(p as u16);
        proof {
            assert(result@ =~= orig + spec_range_ports(lo, hi).take(p as int + 1 - lo as int));
        }
        p += 1;
    }
    proof {
        assert(spec_range_ports(lo, hi).take(p as int - lo as int) =~= spec_range_ports(lo, hi));
    }
}

/// Append the ports the token `chars[start..end]` contributes.
#[verifier::loop_isolation(false)]
#[verifier::rlimit(50)]
fn append_token_ports(result: &mut Vec<u16>, chars: &Vec<char>, start: usize, end: usize)
    requires
        start <= end <= chars@.len(),
    ensures
        final(result)@ == old(result)@ + spec_token_ports(
            chars@.subrange(start as int, end as int),
        ),
{
    let ghost t = chars@.subrange(start as int, end as int);
    let ghost orig = result@;
    if end - start == 3 && chars[start] == 'a' && chars[start + 1] == 'l' && chars[start + 2]
        == 'l' {
        proof {
            assert(t =~= seq!['a', 'l', 'l']);
        }
        append_range(result, 1, 65535);
        return;
    }
    proof {
        if t == seq!['a', 'l', 'l'] {
            assert(t.len() == 3);
            assert(chars@[start as int] == t[0] && chars@[start as int + 1] == t[1] && chars@[
                start as int + 2
            ] == t[2]);
            assert(false);
        }
    }
    let mut h: usize = start;
    while h < end && chars[h] != '-'
        invariant
            start <= h <= end,
            forall|j: int| start <= j < h ==> chars@[j] != '-',
        decreases end - h,
    {
        h += 1;
    }
    if h == end {
        // no `-`: a single port literal
        proof {
            assert(forall|k: int| 0 <= k < t.len() ==> t[k] == chars@[start + k]);
            assert(!t.contains('-')) by {
                if t.contains('-') {
                    let k = choose|k: int| 0 <= k < t.len() && t[k] == '-';
                    assert(chars@[start + k] == '-');
                }
            }
        }
        match parse_port_value(chars, start, end) {
            Some(p) => {
                result.push(p);
                proof {
                    assert(result@ =~= orig + seq![p]);
                }
            },
            None => {
                proof {
                    assert(result@ =~= orig + Seq::<u16>::empty());
                }
            },
        }
        return;
    }
    // chars[h] is the first `-` of the token
    proof {
        assert(t[h - start] == '-');
        assert(t.contains('-'));
        lemma_split_at_first_sep(t, '-', h - start);
        assert(t.take(h - start) =~= chars@.subrange(start as int, h as int));
        assert(t.skip(h - start + 1) =~= chars@.subrange(h as int + 1, end as int));
    }
    let ghost right = t.skip(h - start + 1);
    let mut h2: usize = h + 1;
    while h2 < end && chars[h2] != '-'
        invariant
            h + 1 <= h2 <= end,
            forall|j: int| h + 1 <= j < h2 ==> chars@[j] != '-',
        decreases end - h2,
    {
        h2 += 1;
    }
    if h2 < end {
        // a second `-`: the token is malformed and contributes nothing
        proof {
            assert(right[h2 - h - 1] == chars@[h2 as int]);
            assert(right.contains('-'));
            lemma_split_len(right, '-');
            assert(spec_split(t, '-').len() >= 3);
            assert(result@ =~= orig + spec_token_ports(t));
        }
        return;
    }
    proof {
        assert(forall|k: int| 0 <= k < right.len() ==> right[k] == chars@[h + 1 + k]);
        lemma_split_no_sep(right, '-');
        assert(spec_split(t, '-') =~= seq![t.take(h - start), right]);
    }
    let a = parse_port_value(chars, start, h);
    let b = parse_port_value(chars, h + 1, end);
    proof {
        assert(spec_split(t, '-')[0] == t.take(h - start));
        assert(spec_split(t, '-')[1] == right);
    }
    match (a, b) {
        (Some(lo), Some(hi)) => {
            append_range(result, lo, hi);
        },
        _ => {
            proof {
                assert(result@ =~= orig + spec_token_ports(t));
            }
        },
    }
}

/// Resolve a port specification string into the Port Sequence it
/// denotes: the tokens' contributions in token order, duplicates kept,
/// malformed tokens silently dropped.
pub fn parse_ports(ports_str: &str) -> (result: Vec<u16>)
    ensures
        result@ == spec_parse_ports(ports_str@),
{
    let ghost s = ports_str@;
    let chars = str_chars(ports_str);
    let n = chars.len();
    let mut result: Vec<u16> = Vec::new();
    let mut start: usize = 0;
    proof {
        assert(s.skip(0) =~= s);
    }
    loop
        invariant_except_break
            chars@ == s,
            n == s.len(),
            start <= n,
            result@ + spec_tokens_ports(spec_split(s.skip(start as int), ',')) == spec_parse_ports(
                s,
            ),
        ensures
            result@ == spec_parse_ports(s),
        decreases n - start,
    {
        let ghost rem = s.skip(start as int);
        let ghost pre = result@;
        let mut end: usize = start;
        while end < n && chars[end] != ','
            invariant
                chars@ == s,
                n == s.len(),
                start <= end <= n,
                forall|j: int| start <= j < end ==> chars@[j] != ',',
            decreases n - end,
        {
            end += 1;
        }
        proof {
            assert(rem.take(end - start) =~= chars@.subrange(start as int, end as int));
        }
        append_token_ports(&mut result, &chars, start, end);
        if end == n {
            proof {
                assert(forall|k: int| 0 <= k < rem.len() ==> rem[k] == chars@[start + k]);
                lemma_split_no_sep(rem, ',');
                assert(rem.take(end - start) =~= rem);
                assert(seq![rem][0] == rem);
                assert(seq![rem].drop_first() =~= Seq::<Seq<char>>::empty());
                assert(spec_tokens_ports(Seq::<Seq<char>>::empty()) == Seq::<u16>::empty());
                assert(spec_tokens_ports(seq![rem]) == spec_token_ports(rem) + spec_tokens_ports(
                    Seq::<Seq<char>>::empty(),
                ));
                assert(spec_token_ports(rem) + Seq::<u16>::empty() =~= spec_token_ports(rem));
                assert(result@ =~= pre + spec_token_ports(rem));
                assert(result@ =~= spec_parse_ports(s));
            }
            break ;
        }
        proof {
            assert(rem[end - start] == chars@[end as int]);
            lemma_split_at_first_sep(rem, ',', end - start);
            let toks = spec_split(rem, ',');
            assert(toks == seq![rem.take(end - start)] + spec_split(rem.skip(end - start + 1), ','));
            assert(toks.len() > 0);
            assert(toks[0] == rem.take(end - start));
            assert(toks.drop_first() =~= spec_split(rem.skip(end - start + 1), ','));
            assert(rem.skip(end - start + 1) =~= s.skip(end + 1));
            assert(spec_tokens_ports(toks) == spec_token_ports(toks[0]) + spec_tokens_ports(
                toks.drop_first(),
            ));
            assert(result@ + spec_tokens_ports(spec_split(s.skip(end + 1), ',')) =~= pre
                + spec_tokens_ports(toks));
        }
        start = end + 1;
    }
    result
}

/// The default Port Sequence when no specification is given: ports 1
/// through 1024, ascending.
pub fn default_ports() -> (r: Vec<u16>)
    ensures
        r@ == spec_range_ports(1, 1024),
{
    let mut r: Vec<u16> = Vec::new();
    append_range(&mut r, 1, 1024);
    proof {
        assert(r@ =~= spec_range_ports(1, 1024));
    }
    r
}

} // verus!
