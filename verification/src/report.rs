//! Open-port reports: rendering the one line an open port produces,
//! and aggregating a target's probe outcomes into its report lines.
use crate::probe::ProbeOutcome;
use vstd::prelude::*;
use vstd::string::StrSliceExecFns;
use vstd::string::StringExecFns;

verus! {

/// The character for one decimal digit value.
pub open spec fn spec_digit_char(d: nat) -> char {
    if d == 0 {
        '0'
    } else if d == 1 {
        '1'
    } else if d == 2 {
        '2'
    } else if d == 3 {
        '3'
    } else if d == 4 {
        '4'
    } else if d == 5 {
        '5'
    } else if d == 6 {
        '6'
    } else if d == 7 {
        '7'
    } else if d == 8 {
        '8'
    } else {
        '9'
    }
}

/// The decimal rendering of a number, most significant digit first,
/// with no leading zeros (and `0` itself rendered as one digit).
pub open spec fn spec_decimal_digits(n: nat) -> Seq<char>
    decreases n,
{
    if n < 10 {
        seq![spec_digit_char(n)]
    } else {
        spec_decimal_digits(n / 10).push(spec_digit_char(n % 10))
    }
}

/// The report line an open port produces, exactly as it is written to
/// the result sink.
pub open spec fn spec_report_line(target: Seq<char>, port: u16) -> Seq<char> {
    target + ": Port "@ + spec_decimal_digits(port as nat) + " is open"@
}

/// The single character rendering one digit.
fn digit_str(d: u16) -> (r: &'static str)
    requires
        d < 10,
    ensures
        r@ == seq![spec_digit_char(d as nat)],
{
    let digits: &'static str = "0123456789";
    proof {
        reveal_strlit("0123456789");
    }
    let r = digits.substring_ascii(d as usize, d as usize + 1);
    proof {
        assert(r@ =~= seq![spec_digit_char(d as nat)]);
    }
    r
}

/// A port number rendered in decimal.
pub fn u16_to_string(n: u16) -> (r: String)
    ensures
        r@ == spec_decimal_digits(n as nat),
    decreases n,
{
    if n < 10 {
        String::from_str(digit_str(n))
    } else {
        let mut s = u16_to_string(n / 10);
        s.append(digit_str(n % 10));
        proof {
            assert(s@ =~= spec_decimal_digits((n / 10) as nat).push(
                spec_digit_char((n % 10) as nat),
            ));
        }
        s
    }
}

/// The one report line for an open port on a target.
pub fn format_report(target: &str, port: u16) -> (r: String)
    ensures
        r@ == spec_report_line(target@, port),
{
    let mut s = String::from_str(target);
    s.append(": Port ");
    let d = u16_to_string(port);
    s.append(d.as_str());
    s.append(" is open");
    proof {
        assert(s@ =~= spec_report_line(target@, port));
    }
    s
}

/// The report one probe produces: a line when the port is open,
/// nothing at all otherwise.
pub fn report_for_outcome(target: &str, port: u16, outcome: ProbeOutcome) -> (r: Option<String>)
    ensures
        outcome == ProbeOutcome::Open ==> r is Some && (r->0)@ == spec_report_line(target@, port),
        outcome == ProbeOutcome::ClosedOrFiltered ==> r is None,
{
    match outcome {
        ProbeOutcome::Open => Some(format_report(target, port)),
        ProbeOutcome::ClosedOrFiltered => None,
    }
}

/// The ports reported open, in probe order: those whose probe came
/// back `Open`.
pub open spec fn spec_open_ports(probes: Seq<(u16, ProbeOutcome)>) -> Seq<u16>
    decreases probes.len(),
{
    if probes.len() == 0 {
        Seq::empty()
    } else if probes.last().1 == ProbeOutcome::Open {
        spec_open_ports(probes.drop_last()).push(probes.last().0)
    } else {
        spec_open_ports(probes.drop_last())
    }
}

/// Aggregate one target's probe outcomes into its report lines, in
/// probe order: one line per open probe, none for the others.
#[verifier::loop_isolation(false)]
pub fn collect_reports(target: &str, probes: &Vec<(u16, ProbeOutcome)>) -> (r: Vec<String>)
    ensures
        r@.len() == spec_open_ports(probes@).len(),
        forall|i: int|
            0 <= i < r@.len() ==> (#[trigger] r@[i])@ == spec_report_line(
                target@,
                spec_open_ports(probes@)[i],
            ),
{
    let mut r: Vec<String> = Vec::new();
    let mut i: usize = 0;
    while i < probes.len()
        invariant
            i <= probes@.len(),
            r@.len() == spec_open_ports(probes@.take(i as int)).len(),
            forall|k: int|
                0 <= k < r@.len() ==> (#[trigger] r@[k])@ == spec_report_line(
                    target@,
                    spec_open_ports(probes@.take(i as int))[k],
                ),
        decreases probes@.len() - i,
    {
        let (p, oc) = probes[i];
        match report_for_outcome(target, p, oc) {
            Some(line) => {
                r.push(line);
            },
            None => {},
        }
        proof {
            assert(probes@.take(i + 1).drop_last() =~= probes@.take(i as int));
            assert(probes@.take(i + 1).last() == probes@[i as int]);
        }
        i += 1;
    }
    proof {
        assert(probes@.take(probes@.len() as int) =~= probes@);
    }
    r
}

/// A decimal rendering is never empty.
proof fn lemma_decimal_digits_len(n: nat)
    ensures
        spec_decimal_digits(n).len() >= 1,
{
}

/// Two numbers with the same decimal rendering are the same number.
proof fn lemma_decimal_digits_injective(n: nat, m: nat)
    requires
        spec_decimal_digits(n) == spec_decimal_digits(m),
    ensures
        n == m,
    decreases n + m,
{
    let dn = spec_decimal_digits(n);
    let dm = spec_decimal_digits(m);
    if n < 10 && m < 10 {
        assert(dn[0] == dm[0]);
    } else if n < 10 {
        lemma_decimal_digits_len(m / 10);
        assert(dn.len() == 1 && dm.len() >= 2);
    } else if m < 10 {
        lemma_decimal_digits_len(n / 10);
        assert(dm.len() == 1 && dn.len() >= 2);
    } else {
        assert(dn.last() == dm.last());
        assert(n % 10 == m % 10);
        assert(dn.drop_last() =~= spec_decimal_digits(n / 10));
        assert(dm.drop_last() =~= spec_decimal_digits(m / 10));
        lemma_decimal_digits_injective(n / 10, m / 10);
    }
}

/// Report lines of one target tell the ports apart: equal lines name
/// equal ports. With `lemma_open_port_reported_once` this carries the
/// exactly-once claim from ports over to the written lines.
pub proof fn lemma_report_line_injective(target: Seq<char>, p: u16, q: u16)
    requires
        spec_report_line(target, p) == spec_report_line(target, q),
    ensures
        p == q,
{
    let dp = spec_decimal_digits(p as nat);
    let dq = spec_decimal_digits(q as nat);
    let head = target + ": Port "@;
    let lp = spec_report_line(target, p);
    let lq = spec_report_line(target, q);
    assert(lp.len() == head.len() + dp.len() + " is open"@.len());
    assert(lq.len() == head.len() + dq.len() + " is open"@.len());
    assert(dp.len() == dq.len());
    assert forall|i: int| 0 <= i < dp.len() implies dp[i] == dq[i] by {
        assert(dp[i] == lp[head.len() + i]);
        assert(dq[i] == lq[head.len() + i]);
    }
    assert(dp =~= dq);
    lemma_decimal_digits_injective(p as nat, q as nat);
}

/// A port is reported open exactly when some probe of it came back
/// `Open`.
pub proof fn lemma_open_ports_contains(probes: Seq<(u16, ProbeOutcome)>, p: u16)
    ensures
        spec_open_ports(probes).contains(p) <==> probes.contains((p, ProbeOutcome::Open)),
    decreases probes.len(),
{
    let x = (p, ProbeOutcome::Open);
    if probes.len() > 0 {
        let d = probes.drop_last();
        lemma_open_ports_contains(d, p);
        let op = spec_open_ports(probes);
        let opd = spec_open_ports(d);
        if probes.contains(x) {
            let i = choose|i: int| 0 <= i < probes.len() && probes[i] == x;
            if i < probes.len() - 1 {
                assert(d[i] == x);
                assert(d.contains(x));
                let j = choose|j: int| 0 <= j < opd.len() && opd[j] == p;
                assert(op[j] == p);
            } else {
                assert(probes.last() == x);
                assert(op[op.len() - 1] == p);
            }
            assert(op.contains(p));
        }
        if op.contains(p) {
            let j = choose|j: int| 0 <= j < op.len() && op[j] == p;
            if probes.last().1 == ProbeOutcome::Open && j == op.len() - 1 {
                assert(probes.last().0 == p);
                assert(probes.last() == x);
                assert(probes[probes.len() - 1] == x);
            } else {
                assert(opd[j] == p);
                assert(opd.contains(p));
                let i = choose|i: int| 0 <= i < d.len() && d[i] == x;
                assert(probes[i] == x);
            }
            assert(probes.contains(x));
        }
    }
}

/// Probing the same work twice against an unchanged set of listeners
/// reports the same set of open ports, whatever order the workers of
/// either run claimed and probed in.
pub proof fn lemma_scan_reports_same_set(a: Seq<(u16, ProbeOutcome)>, b: Seq<(u16, ProbeOutcome)>)
    requires
        a.to_multiset() == b.to_multiset(),
    ensures
        spec_open_ports(a).to_set() == spec_open_ports(b).to_set(),
{
    a.to_multiset_ensures();
    b.to_multiset_ensures();
    assert forall|p: u16| #[trigger]
        spec_open_ports(a).contains(p) <==> spec_open_ports(b).contains(p) by {
        lemma_open_ports_contains(a, p);
        lemma_open_ports_contains(b, p);
        let x = (p, ProbeOutcome::Open);
        assert(a.contains(x) <==> a.to_multiset().count(x) > 0);
        assert(b.contains(x) <==> b.to_multiset().count(x) > 0);
    }
    assert(spec_open_ports(a).to_set() =~= spec_open_ports(b).to_set());
}

/// Every open probe of a port contributes exactly one report of it:
/// a port probed once against a bound listener is reported exactly
/// once, and a port never probed open is never reported.
pub proof fn lemma_open_port_reported_once(probes: Seq<(u16, ProbeOutcome)>, p: u16)
    ensures
        spec_open_ports(probes).filter(|q: u16| q == p).len() == probes.filter(
            |pr: (u16, ProbeOutcome)| pr == (p, ProbeOutcome::Open),
        ).len(),
    decreases probes.len(),
{
    reveal(Seq::filter);
    let fo = |q: u16| q == p;
    let fp = |pr: (u16, ProbeOutcome)| pr == (p, ProbeOutcome::Open);
    if probes.len() == 0 {
        assert(spec_open_ports(probes).filter(fo).len() == 0);
    } else {
        let d = probes.drop_last();
        let last = probes.last();
        lemma_open_port_reported_once(d, p);
        assert(probes.filter(fp) == if fp(last) {
            d.filter(fp).push(last)
        } else {
            d.filter(fp)
        });
        if last.1 == ProbeOutcome::Open {
            let op = spec_open_ports(d).push(last.0);
            assert(op.drop_last() =~= spec_open_ports(d));
            assert(op.filter(fo) == if fo(last.0) {
                spec_open_ports(d).filter(fo).push(last.0)
            } else {
                spec_open_ports(d).filter(fo)
            });
            if last.0 == p {
                assert(last == (p, ProbeOutcome::Open));
            } else {
                assert(last != (p, ProbeOutcome::Open));
            }
        } else {
            assert(last != (p, ProbeOutcome::Open));
        }
    }
}

} // verus!
