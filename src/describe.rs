//! Text that describes an automaton: numbers in decimal, lists of states, and
//! states in ascending order.
use vstd::prelude::*;
use crate::data::VertexId;
use crate::text::{chars_of, string_of};

verus! {

/// The decimal digit of `d`.
pub open spec fn digit_char(d: nat) -> char {
    if d < 10 {
        ((d + 48) as u32) as char
    } else {
        '?'
    }
}

/// `n` written in decimal, without leading zeros.
pub open spec fn decimal(n: nat) -> Seq<char>
    decreases n,
{
    if n < 10 {
        seq![digit_char(n)]
    } else {
        decimal(n / 10).push(digit_char(n % 10))
    }
}

fn digit_exec(d: u32) -> (r: char)
    requires
        d < 10,
    ensures
        r == digit_char(d as nat),
{
    if d == 0 { '0' } else if d == 1 { '1' } else if d == 2 { '2' } else if d == 3 { '3' } else if d
        == 4 { '4' } else if d == 5 { '5' } else if d == 6 { '6' } else if d == 7 { '7' } else if d
        == 8 { '8' } else { '9' }
}

/// `n` written in decimal.
pub fn decimal_chars(n: u32) -> (r: Vec<char>)
    ensures
        r@ == decimal(n as nat),
{
    let mut out: Vec<char> = Vec::new();
    let mut m = n;
    while m >= 10
        invariant
            decimal(n as nat) == decimal(m as nat) + out@,
        decreases m,
    {
        let d = digit_exec(m % 10);
        out.insert(0, d);
        assert(decimal(m as nat) == decimal((m / 10) as nat).push(d));
        m = m / 10;
        assert(decimal(n as nat) =~= decimal(m as nat) + out@);
    }
    out.insert(0, digit_exec(m));
    assert(decimal(n as nat) =~= out@);
    out
}

/// Appends the characters of `s` to `out`.
pub fn append_chars(out: &mut Vec<char>, s: &Vec<char>)
    ensures
        final(out)@ == old(out)@ + s@,
{
    let ghost start = out@;
    let mut i: usize = 0;
    while i < s.len()
        invariant
            i <= s.len(),
            out@ == start + s@.subrange(0, i as int),
        decreases s.len() - i,
    {
        out.push(s[i]);
        i += 1;
        assert(out@ =~= start + s@.subrange(0, i as int));
    }
    assert(s@.subrange(0, s.len() as int) =~= s@);
}

/// The states written in decimal, separated by ", ".
pub open spec fn joined(xs: Seq<VertexId>) -> Seq<char>
    decreases xs.len(),
{
    if xs.len() == 0 {
        Seq::empty()
    } else if xs.len() == 1 {
        decimal(xs[0] as nat)
    } else {
        joined(xs.drop_last()) + ", "@ + decimal(xs.last() as nat)
    }
}

/// The states written in decimal and separated by ", ", or "None" for no state.
pub open spec fn states_text(xs: Seq<VertexId>) -> Seq<char> {
    if xs.len() == 0 {
        "None"@
    } else {
        joined(xs)
    }
}

/// The states written in decimal and separated by ", ", or "None" for no state.
pub fn format_states(states: &[VertexId]) -> (r: String)
    ensures
        r@ == states_text(states@),
{
    if states.len() == 0 {
        return String::from_str("None");
    }
    let mut out = decimal_chars(states[0]);
    let sep = chars_of(", ");
    assert(states@.subrange(0, 1) =~= seq![states@[0]]);
    let mut i: usize = 1;
    while i < states.len()
        invariant
            1 <= i <= states.len(),
            sep@ == ", "@,
            out@ == joined(states@.subrange(0, i as int)),
        decreases states.len() - i,
    {
        assert(states@.subrange(0, i + 1).drop_last() =~= states@.subrange(0, i as int));
        append_chars(&mut out, &sep);
        append_chars(&mut out, &decimal_chars(states[i]));
        i += 1;
    }
    assert(states@.subrange(0, states.len() as int) =~= states@);
    string_of(&out)
}

/// Whether `xs` is strictly ascending.
pub open spec fn ascending(xs: Seq<VertexId>) -> bool {
    forall|i: int, j: int| 0 <= i < j < xs.len() ==> xs[i] < xs[j]
}

/// The distinct elements of `xs`, in ascending order.
pub fn sorted_distinct(xs: &Vec<VertexId>) -> (r: Vec<VertexId>)
    ensures
        ascending(r@),
        r@.to_set() == xs@.to_set(),
{
    let mut r: Vec<VertexId> = Vec::new();
    let mut i: usize = 0;
    while i < xs.len()
        invariant
            i <= xs.len(),
            ascending(r@),
            r@.to_set() == xs@.subrange(0, i as int).to_set(),
        decreases xs.len() - i,
    {
        let x = xs[i];
        let ghost before = r@;
        let mut p: usize = 0;
        while p < r.len() && r[p] < x
            invariant
                p <= r.len(),
                forall|j: int| 0 <= j < p ==> r@[j] < x,
            decreases r.len() - p,
        {
            p += 1;
        }
        if p < r.len() && r[p] == x {
        } else {
            r.insert(p, x);
            assert(r@ =~= before.subrange(0, p as int).push(x) + before.subrange(p as int, before.len() as int));
            assert forall|a: int, b: int| 0 <= a < b < r@.len() implies r@[a] < r@[b] by {
                if a < p && b > p {
                    assert(r@[b] == before[b - 1]);
                } else if a > p {
                    assert(r@[a] == before[a - 1] && r@[b] == before[b - 1]);
                } else if a == p {
                    assert(r@[b] == before[b - 1]);
                    assert(before[p as int] >= x);
                    if b - 1 > p {
                        assert(before[p as int] < before[b - 1]);
                    }
                }
            }
        }
        assert(xs@.subrange(0, i + 1) =~= xs@.subrange(0, i as int).push(x));
        assert forall|y: VertexId| r@.to_set().contains(y) <==> xs@.subrange(0, i + 1).to_set().contains(y) by {
            if y == x {
                if p < before.len() && before[p as int] == x {
                    assert(before.contains(x));
                } else {
                    assert(r@[p as int] == x);
                }
                assert(xs@.subrange(0, i + 1)[i as int] == x);
            }
            if r@.contains(y) && y != x {
                let k = choose|k: int| 0 <= k < r@.len() && r@[k] == y;
                if p < before.len() && before[p as int] == x {
                } else if k < p {
                    assert(before[k] == y);
                } else {
                    assert(before[k - 1] == y);
                }
                assert(before.contains(y));
                assert(before.to_set().contains(y));
                assert(xs@.subrange(0, i as int).to_set().contains(y));
                assert(xs@.subrange(0, i as int).contains(y));
                let m = choose|m: int| 0 <= m < i && #[trigger] xs@.subrange(0, i as int)[m] == y;
                assert(xs@.subrange(0, i + 1)[m] == y);
            }
            if xs@.subrange(0, i + 1).contains(y) && y != x {
                let m = choose|m: int| 0 <= m < i + 1 && #[trigger] xs@.subrange(0, i + 1)[m] == y;
                assert(xs@.subrange(0, i as int)[m] == y);
                assert(before.to_set().contains(y));
                let k = choose|k: int| 0 <= k < before.len() && before[k] == y;
                if p < before.len() && before[p as int] == x {
                    assert(r@[k] == y);
                } else if k < p {
                    assert(r@[k] == y);
                } else {
                    assert(r@[k + 1] == y);
                }
            }
        }
        assert(r@.to_set() =~= xs@.subrange(0, i + 1).to_set());
        i += 1;
    }
    assert(xs@.subrange(0, xs.len() as int) =~= xs@);
    r
}

/// One shown line per entry: the state it belongs to, and its text.
pub type Entry = (VertexId, Seq<char>);

pub open spec fn entries_view(es: Seq<(VertexId, Vec<char>)>) -> Seq<Entry> {
    es.map_values(|e: (VertexId, Vec<char>)| (e.0, e.1@))
}

/// The texts of the entries of state `q`, in order.
pub open spec fn lines_for(es: Seq<Entry>, q: VertexId) -> Seq<char>
    decreases es.len(),
{
    if es.len() == 0 {
        Seq::empty()
    } else {
        lines_for(es.drop_last(), q) + if es.last().0 == q {
            es.last().1
        } else {
            Seq::empty()
        }
    }
}

/// For each state of `order`, a header line and the texts of its entries.
pub open spec fn blocks(order: Seq<VertexId>, es: Seq<Entry>) -> Seq<char>
    decreases order.len(),
{
    if order.len() == 0 {
        Seq::empty()
    } else {
        blocks(order.drop_last(), es) + "\nState "@ + decimal(order.last() as nat) + ":"@ + lines_for(
            es,
            order.last(),
        )
    }
}

/// The states that the entries belong to.
pub open spec fn entry_states(es: Seq<Entry>) -> Set<VertexId> {
    Set::new(|q: VertexId| exists|i: int| 0 <= i < es.len() && es[i].0 == q)
}

fn lines_for_exec(es: &Vec<(VertexId, Vec<char>)>, q: VertexId, out: &mut Vec<char>)
    ensures
        final(out)@ == old(out)@ + lines_for(entries_view(es@), q),
{
    let ghost start = out@;
    let ghost ev = entries_view(es@);
    let mut i: usize = 0;
    while i < es.len()
        invariant
            i <= es.len(),
            ev == entries_view(es@),
            out@ == start + lines_for(ev.subrange(0, i as int), q),
        decreases es.len() - i,
    {
        assert(ev.subrange(0, i + 1).drop_last() =~= ev.subrange(0, i as int));
        assert(ev.subrange(0, i + 1).last() == (es@[i as int].0, es@[i as int].1@));
        if es[i].0 == q {
            append_chars(out, &es[i].1);
        }
        i += 1;
        assert(out@ =~= start + lines_for(ev.subrange(0, i as int), q));
    }
    assert(ev.subrange(0, es.len() as int) =~= ev);
}

/// `header`, then the states of the entries in ascending order, each with the
/// texts of its entries.
pub fn describe(header: Vec<char>, es: &Vec<(VertexId, Vec<char>)>) -> (r: String)
    ensures
        exists|order: Seq<VertexId>|
            ascending(order) && order.to_set() == entry_states(entries_view(es@)) && r@ == header@
                + #[trigger] blocks(order, entries_view(es@)),
{
    let ghost ev = entries_view(es@);
    let mut states: Vec<VertexId> = Vec::new();
    let mut i: usize = 0;
    while i < es.len()
        invariant
            i <= es.len(),
            states@.len() == i,
            forall|j: int| 0 <= j < i ==> #[trigger] states@[j] == es@[j].0,
        decreases es.len() - i,
    {
        states.push(es[i].0);
        i += 1;
    }
    let order = sorted_distinct(&states);
    assert forall|q: VertexId| order@.to_set().contains(q) <==> entry_states(ev).contains(q) by {
        assert(order@.to_set().contains(q) == states@.to_set().contains(q));
        if states@.contains(q) {
            let j = choose|j: int| 0 <= j < states@.len() && states@[j] == q;
            assert(ev[j].0 == q);
        }
        if entry_states(ev).contains(q) {
            let j = choose|j: int| 0 <= j < ev.len() && ev[j].0 == q;
            assert(states@[j] == q);
        }
    }
    assert(order@.to_set() =~= entry_states(ev));
    let mut out = header;
    let ghost h = out@;
    let mut k: usize = 0;
    while k < order.len()
        invariant
            k <= order.len(),
            ev == entries_view(es@),
            out@ == h + blocks(order@.subrange(0, k as int), ev),
        decreases order.len() - k,
    {
        assert(order@.subrange(0, k + 1).drop_last() =~= order@.subrange(0, k as int));
        let q = order[k];
        append_chars(&mut out, &chars_of("\nState "));
        append_chars(&mut out, &decimal_chars(q));
        append_chars(&mut out, &chars_of(":"));
        lines_for_exec(es, q, &mut out);
        k += 1;
        assert(out@ =~= h + blocks(order@.subrange(0, k as int), ev));
    }
    assert(order@.subrange(0, order.len() as int) =~= order@);
    string_of(&out)
}

/// `header` followed by the states written in ascending order, as `states_text` writes them.
pub fn append_sorted_states(out: &mut Vec<char>, states: &Vec<VertexId>)
    ensures
        exists|order: Seq<VertexId>|
            ascending(order) && order.to_set() == states@.to_set() && final(out)@ == old(out)@
                + #[trigger] states_text(order),
{
    let order = sorted_distinct(states);
    let text = format_states(order.as_slice());
    append_chars(out, &chars_of(text.as_str()));
}

/// `title`, then the final and the start states, each list in ascending order.
pub open spec fn states_header(title: Seq<char>, finals: Seq<VertexId>, starts: Seq<VertexId>) -> Seq<char> {
    title + "\nFinal States: "@ + states_text(finals) + "\nStart States: "@ + states_text(starts)
}

/// The description of an automaton with several start states: `title`, its final
/// and start states, then each state with an entry, in ascending order, with the
/// texts of its entries.
pub open spec fn described(title: Seq<char>, finals: Seq<VertexId>, starts: Seq<VertexId>, es: Seq<Entry>, text: Seq<char>) -> bool {
    exists|fo: Seq<VertexId>, so: Seq<VertexId>, order: Seq<VertexId>|
        ascending(fo) && fo.to_set() == finals.to_set() && ascending(so) && so.to_set() == starts.to_set()
            && ascending(order) && order.to_set() == entry_states(es) && text == #[trigger] states_header(title, fo, so)
            + #[trigger] blocks(order, es)
}

/// Describes an automaton with several start states.
pub fn describe_with_starts(title: &str, finals: &Vec<VertexId>, starts: &Vec<VertexId>, es: &Vec<(VertexId, Vec<char>)>) -> (r: String)
    ensures
        described(title@, finals@, starts@, entries_view(es@), r@),
{
    let mut header = chars_of(title);
    append_chars(&mut header, &chars_of("\nFinal States: "));
    let ghost h1 = header@;
    append_sorted_states(&mut header, finals);
    let ghost fo = choose|o: Seq<VertexId>| ascending(o) && o.to_set() == finals@.to_set() && header@ == h1 + #[trigger] states_text(o);
    append_chars(&mut header, &chars_of("\nStart States: "));
    let ghost h2 = header@;
    append_sorted_states(&mut header, starts);
    let ghost so = choose|o: Seq<VertexId>| ascending(o) && o.to_set() == starts@.to_set() && header@ == h2 + #[trigger] states_text(o);
    assert(header@ =~= states_header(title@, fo, so));
    let r = describe(header, es);
    let ghost order = choose|order: Seq<VertexId>|
        ascending(order) && order.to_set() == entry_states(entries_view(es@)) && r@ == states_header(title@, fo, so)
            + #[trigger] blocks(order, entries_view(es@));
    assert(described(title@, finals@, starts@, entries_view(es@), r@));
    r
}

} // verus!
