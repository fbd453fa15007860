//! The snapshot serializer.
//!
//! A listing is rendered one block per service: the name, then one
//! tab-indented `key: value` line per metadata pair, blocks separated by
//! newlines. The rendering is a pure function of the listing, so equal
//! snapshots always print the same text.

use vstd::prelude::*;
use vstd::string::StringExecFns;
use crate::registry::EntryModel;

verus! {

/// One metadata line body: `key: value`.
pub open spec fn pair_line(p: (Seq<char>, Seq<char>)) -> Seq<char> {
    p.0 + seq![':', ' '] + p.1
}

/// The metadata lines of one block, each preceded by a newline and a tab.
pub open spec fn meta_lines(ps: Seq<(Seq<char>, Seq<char>)>) -> Seq<char>
    decreases ps.len(),
{
    if ps.len() == 0 {
        Seq::empty()
    } else {
        seq!['\n', '\t'] + pair_line(ps[0]) + meta_lines(ps.skip(1))
    }
}

/// One service's block: its name and its metadata lines; a service without
/// metadata still gets its indentation.
pub open spec fn block(name: Seq<char>, ps: Seq<(Seq<char>, Seq<char>)>) -> Seq<char> {
    if ps.len() == 0 {
        name + seq!['\n', '\t']
    } else {
        name + meta_lines(ps)
    }
}

/// The whole listing: blocks joined by newlines.
pub open spec fn render(l: Seq<(Seq<char>, Seq<(Seq<char>, Seq<char>)>)>) -> Seq<char>
    decreases l.len(),
{
    if l.len() == 0 {
        Seq::empty()
    } else if l.len() == 1 {
        block(l[0].0, l[0].1)
    } else {
        block(l[0].0, l[0].1) + seq!['\n'] + render(l.skip(1))
    }
}

/// What a registry's entries expose to a listing: each entry's name and
/// metadata, in the entries' order.
pub open spec fn listing_of(s: Seq<EntryModel>) -> Seq<(Seq<char>, Seq<(Seq<char>, Seq<char>)>)> {
    Seq::new(s.len(), |i: int| (s[i].name, s[i].metadata))
}

proof fn lemma_meta_lines_push(ps: Seq<(Seq<char>, Seq<char>)>, p: (Seq<char>, Seq<char>))
    ensures
        meta_lines(ps.push(p)) == meta_lines(ps) + (seq!['\n', '\t'] + pair_line(p)),
    decreases ps.len(),
{
    if ps.len() == 0 {
        assert(ps.push(p)[0] == p);
        assert(ps =~= Seq::<(Seq<char>, Seq<char>)>::empty());
        assert(ps.push(p).skip(1) =~= ps);
        assert(meta_lines(ps.push(p)) =~= meta_lines(ps) + (seq!['\n', '\t'] + pair_line(p)));
    } else {
        assert(ps.push(p)[0] == ps[0]);
        assert(ps.push(p).skip(1) =~= ps.skip(1).push(p));
        lemma_meta_lines_push(ps.skip(1), p);
        assert(meta_lines(ps.push(p)) =~= meta_lines(ps) + (seq!['\n', '\t'] + pair_line(p)));
    }
}

proof fn lemma_render_push(
    l: Seq<(Seq<char>, Seq<(Seq<char>, Seq<char>)>)>,
    x: (Seq<char>, Seq<(Seq<char>, Seq<char>)>),
)
    ensures
        render(l.push(x)) == if l.len() == 0 {
            block(x.0, x.1)
        } else {
            render(l) + seq!['\n'] + block(x.0, x.1)
        },
    decreases l.len(),
{
    if l.len() == 0 {
        assert(l.push(x)[0] == x);
    } else if l.len() == 1 {
        assert(l.push(x)[0] == l[0]);
        assert(l.push(x).skip(1) =~= seq![x]);
        assert(render(seq![x]) == block(x.0, x.1));
        assert(render(l.push(x)) =~= render(l) + seq!['\n'] + block(x.0, x.1));
    } else {
        assert(l.push(x)[0] == l[0]);
        assert(l.push(x).skip(1) =~= l.skip(1).push(x));
        lemma_render_push(l.skip(1), x);
        assert(render(l.push(x)) =~= render(l) + seq!['\n'] + block(x.0, x.1));
    }
}

/// Renders a snapshot. Pure: the result depends on the listing alone.
pub fn render_listing(entries: &Vec<(String, Vec<(String, String)>)>) -> (r: String)
    ensures
        r@ == render(entries.deep_view()),
{
    let ghost l = entries.deep_view();
    let mut out = String::new();
    proof {
        assert(l.take(0) =~= Seq::<(Seq<char>, Seq<(Seq<char>, Seq<char>)>)>::empty());
        reveal_strlit("\n");
        reveal_strlit("\n\t");
        reveal_strlit(": ");
        assert("\n"@ =~= seq!['\n']);
        assert("\n\t"@ =~= seq!['\n', '\t']);
        assert(": "@ =~= seq![':', ' ']);
    }
    let len = entries.len();
    let mut i: usize = 0;
    while i < len
        invariant
            i <= len,
            len == entries@.len(),
            l == entries.deep_view(),
            out@ == render(l.take(i as int)),
        decreases len - i,
    {
        proof {
            reveal_strlit("\n");
            reveal_strlit("\n\t");
            reveal_strlit(": ");
            assert("\n"@ =~= seq!['\n']);
            assert("\n\t"@ =~= seq!['\n', '\t']);
            assert(": "@ =~= seq![':', ' ']);
            assert(l[i as int] == (entries@[i as int].0@, entries@[i as int].1.deep_view()));
        }
        let ghost before = out@;
        let ghost sep: Seq<char> = if i == 0 { Seq::empty() } else { seq!['\n'] };
        if i > 0 {
            out.append("\n");
        }
        let name = &entries[i].0;
        out.append(name.as_str());
        let ghost base = before + sep + l[i as int].0;
        proof {
            assert(out@ =~= base);
        }
        let ps = &entries[i].1;
        let ghost pm = l[i as int].1;
        let plen = ps.len();
        if plen == 0 {
            out.append("\n\t");
            proof {
                assert(pm.len() == 0);
                assert(out@ =~= base + seq!['\n', '\t']);
            }
        } else {
            let mut j: usize = 0;
            proof {
                assert(pm.take(0) =~= Seq::<(Seq<char>, Seq<char>)>::empty());
                assert(out@ =~= base + meta_lines(pm.take(0)));
            }
            while j < plen
                invariant
                    j <= plen,
                    plen == ps@.len(),
                    pm == ps.deep_view(),
                    base == before + sep + l[i as int].0,
                    out@ == base + meta_lines(pm.take(j as int)),
                decreases plen - j,
            {
                proof {
                    reveal_strlit("\n\t");
                    reveal_strlit(": ");
                    assert("\n\t"@ =~= seq!['\n', '\t']);
                    assert(": "@ =~= seq![':', ' ']);
                    assert(pm[j as int] == (ps@[j as int].0@, ps@[j as int].1@));
                }
                out.append("\n\t");
                out.append(ps[j].0.as_str());
                out.append(": ");
                out.append(ps[j].1.as_str());
                proof {
                    lemma_meta_lines_push(pm.take(j as int), pm[j as int]);
                    assert(pm.take(j as int).push(pm[j as int]) =~= pm.take(j + 1));
                    assert(out@ =~= base + meta_lines(pm.take(j + 1)));
                }
                j = j + 1;
            }
            proof {
                assert(pm.take(plen as int) =~= pm);
            }
        }
        proof {
            assert(out@ =~= before + sep + block(l[i as int].0, l[i as int].1));
            lemma_render_push(l.take(i as int), l[i as int]);
            assert(l.take(i as int).push(l[i as int]) =~= l.take(i + 1));
            assert(out@ =~= render(l.take(i + 1)));
        }
        i = i + 1;
    }
    proof {
        assert(l.take(len as int) =~= l);
    }
    out
}

} // verus!
