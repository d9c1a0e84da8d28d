//! Text exposition rendering: a pure serialization of a metric family and a
//! snapshot of its store into the line-oriented scrape format.
//!
//! One family renders as a `# HELP` line, a `# TYPE` line, and one sample
//! line per label set: `name{key="value",...} value`, the braces omitted
//! when the label set is empty.

use vstd::prelude::*;

use crate::labels::LabelSet;
use crate::store::{entries_view, EntryView};
use crate::value::{push_value, value_chars, DecValue};

verus! {

/// One rendered label pair: `key="value"`.
pub open spec fn label_chars(p: (Seq<char>, Seq<char>)) -> Seq<char> {
    p.0 + "=\""@ + p.1 + "\""@
}

/// The rendered label pairs, comma-separated, without braces.
pub open spec fn labels_inner_chars(ls: Seq<(Seq<char>, Seq<char>)>) -> Seq<char>
    decreases ls.len(),
{
    if ls.len() == 0 {
        Seq::empty()
    } else if ls.len() == 1 {
        label_chars(ls[0])
    } else {
        labels_inner_chars(ls.drop_last()) + ","@ + label_chars(ls.last())
    }
}

/// The rendered label set: braced and comma-separated, or nothing at all
/// when the label set is empty.
pub open spec fn labels_chars(ls: Seq<(Seq<char>, Seq<char>)>) -> Seq<char> {
    if ls.len() == 0 {
        Seq::empty()
    } else {
        "{"@ + labels_inner_chars(ls) + "}"@
    }
}

/// One sample line: name, labels, a space, the value, a newline.
pub open spec fn sample_chars(name: Seq<char>, e: EntryView) -> Seq<char> {
    name + labels_chars(e.0) + " "@ + value_chars(e.1) + "\n"@
}

/// All sample lines of a snapshot, in snapshot order.
pub open spec fn entries_chars(name: Seq<char>, es: Seq<EntryView>) -> Seq<char>
    decreases es.len(),
{
    if es.len() == 0 {
        Seq::empty()
    } else {
        entries_chars(name, es.drop_last()) + sample_chars(name, es.last())
    }
}

/// A whole family: `# HELP`, `# TYPE` (always a gauge), then the samples.
pub open spec fn family_chars(name: Seq<char>, help: Seq<char>, es: Seq<EntryView>) -> Seq<char> {
    "# HELP "@ + name + " "@ + help + "\n"@ + "# TYPE "@ + name + " gauge\n"@ + entries_chars(
        name,
        es,
    )
}

/// Appends `key="value"` for one label pair.
fn push_label(out: &mut String, key: &str, value: &str)
    ensures
        final(out)@ == old(out)@ + label_chars((key@, value@)),
{
    out.append(key);
    out.append("=\"");
    out.append(value);
    out.append("\"");
    proof {
        assert(out@ =~= old(out)@ + label_chars((key@, value@)));
    }
}

/// Appends the rendered form of a label set.
fn push_labels(out: &mut String, ls: &LabelSet)
    ensures
        final(out)@ == old(out)@ + labels_chars(ls@),
{
    let n = ls.pairs.len();
    if n == 0 {
        proof {
            assert(out@ =~= old(out)@ + labels_chars(ls@));
        }
        return ;
    }
    out.append("{");
    let mut i: usize = 0;
    while i < n
        invariant
            n == ls.pairs@.len(),
            0 < n,
            i <= n,
            out@ == old(out)@ + "{"@ + labels_inner_chars(ls@.take(i as int)),
        decreases n - i,
    {
        if i > 0 {
            out.append(",");
        }
        let p = &ls.pairs[i];
        push_label(out, p.0.as_str(), p.1.as_str());
        proof {
            let taken = ls@.take(i + 1);
            assert(taken.drop_last() =~= ls@.take(i as int));
            assert(taken.last() == (ls.pairs@[i as int].0@, ls.pairs@[i as int].1@));
            if i == 0 {
                assert(labels_inner_chars(taken) == label_chars(taken[0]));
                assert(out@ =~= old(out)@ + "{"@ + labels_inner_chars(taken));
            } else {
                assert(out@ =~= old(out)@ + "{"@ + labels_inner_chars(taken));
            }
        }
        i = i + 1;
    }
    out.append("}");
    proof {
        assert(ls@.take(n as int) =~= ls@);
        assert(out@ =~= old(out)@ + labels_chars(ls@));
    }
}

/// Appends one sample line.
fn push_sample(out: &mut String, name: &str, labels: &LabelSet, v: DecValue)
    ensures
        final(out)@ == old(out)@ + sample_chars(name@, (labels@, v)),
{
    out.append(name);
    push_labels(out, labels);
    out.append(" ");
    push_value(out, v);
    out.append("\n");
    proof {
        assert(out@ =~= old(out)@ + sample_chars(name@, (labels@, v)));
    }
}

/// Renders one family with a snapshot of its store into the exposition
/// text, byte for byte as [`family_chars`] states it.
pub fn render_family(name: &str, help: &str, snap: &Vec<(LabelSet, DecValue)>) -> (r: String)
    ensures
        r@ == family_chars(name@, help@, entries_view(snap@)),
{
    let mut out = String::new();
    out.append("# HELP ");
    out.append(name);
    out.append(" ");
    out.append(help);
    out.append("\n");
    out.append("# TYPE ");
    out.append(name);
    out.append(" gauge\n");
    let ghost header = out@;
    proof {
        assert(entries_view(snap@).take(0) =~= Seq::<EntryView>::empty());
        assert(out@ =~= header + entries_chars(name@, entries_view(snap@).take(0)));
    }
    let n = snap.len();
    let mut i: usize = 0;
    while i < n
        invariant
            n == snap@.len(),
            i <= n,
            header == "# HELP "@ + name@ + " "@ + help@ + "\n"@ + "# TYPE "@ + name@ + " gauge\n"@,
            out@ == header + entries_chars(name@, entries_view(snap@).take(i as int)),
        decreases n - i,
    {
        let e = &snap[i];
        push_sample(&mut out, name, &e.0, e.1);
        proof {
            let es = entries_view(snap@);
            let taken = es.take(i + 1);
            assert(taken.drop_last() =~= es.take(i as int));
            assert(taken.last() == (snap@[i as int].0@, snap@[i as int].1));
            assert(out@ =~= header + entries_chars(name@, taken));
        }
        i = i + 1;
    }
    proof {
        assert(entries_view(snap@).take(n as int) =~= entries_view(snap@));
        assert(out@ =~= family_chars(name@, help@, entries_view(snap@)));
    }
    out
}

} // verus!
