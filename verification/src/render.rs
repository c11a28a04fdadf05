//! The inline literal renderer.
//!
//! A map can be spliced directly into generated command text as
//! `'k1=>v1,k2=>v2'::hstore`. Keys and values are rendered verbatim, with
//! no quoting or escaping: a key or value holding a quote, comma or `=>`
//! produces a malformed literal, and an empty map has no rendering at all.
//! Both limitations are inherited from the format's users and are kept
//! here; the precondition rules the empty map out, and
//! [`render_literal_checked`] reports it instead.

use vstd::prelude::*;

use crate::map::Hstore;

verus! {

/// The characters of one rendered entry: `key=>value`.
pub open spec fn entry_chars(e: (Seq<char>, Seq<char>)) -> Seq<char> {
    e.0 + seq!['=', '>'] + e.1
}

/// The rendered entries joined with single commas.
pub open spec fn joined_chars(s: Seq<(Seq<char>, Seq<char>)>) -> Seq<char>
    decreases s.len(),
{
    if s.len() == 0 {
        Seq::empty()
    } else if s.len() == 1 {
        entry_chars(s[0])
    } else {
        entry_chars(s[0]) + seq![','] + joined_chars(s.drop_first())
    }
}

/// The full inline literal: the joined entries between single quotes,
/// followed by the hstore type cast.
pub open spec fn literal_chars(s: Seq<(Seq<char>, Seq<char>)>) -> Seq<char> {
    seq!['\''] + joined_chars(s) + seq!['\'', ':', ':', 'h', 's', 't', 'o', 'r', 'e']
}

/// Appending one entry appends a comma (when anything precedes it) and the
/// entry's rendering.
proof fn lemma_joined_push(s: Seq<(Seq<char>, Seq<char>)>, e: (Seq<char>, Seq<char>))
    ensures
        s.len() == 0 ==> joined_chars(s.push(e)) == entry_chars(e),
        s.len() > 0 ==> joined_chars(s.push(e)) == joined_chars(s) + seq![','] + entry_chars(e),
    decreases s.len(),
{
    let sp = s.push(e);
    if s.len() == 0 {
        assert(sp.len() == 1);
        assert(sp[0] == e);
    } else if s.len() == 1 {
        assert(sp.len() == 2);
        assert(sp[0] == s[0]);
        assert(sp.drop_first().len() == 1);
        assert(sp.drop_first()[0] == e);
        assert(joined_chars(sp.drop_first()) == entry_chars(e));
        assert(joined_chars(s) == entry_chars(s[0]));
    } else {
        assert(sp[0] == s[0]);
        assert(sp.drop_first() =~= s.drop_first().push(e));
        lemma_joined_push(s.drop_first(), e);
        assert(s.drop_first().len() > 0);
        assert(entry_chars(s[0]) + seq![','] + (joined_chars(s.drop_first()) + seq![',']
            + entry_chars(e)) =~= (entry_chars(s[0]) + seq![','] + joined_chars(s.drop_first()))
            + seq![','] + entry_chars(e));
    }
}

/// Relies on `String::push_str`: it appends the slice's characters to the
/// end of the string.
#[verifier::external_body]
fn push_str(out: &mut String, s: &str)
    ensures
        final(out)@ == old(out)@ + s@,
{
    out.push_str(s)
}

/// Renders the map as an inline `'k1=>v1,k2=>v2'::hstore` literal, the
/// entries in storage order.
///
/// Keys and values appear verbatim, unquoted and unescaped. The empty map
/// has no rendering and is excluded by the precondition.
pub fn render_literal(h: &Hstore) -> (r: String)
    requires
        h.kv_seq().len() > 0,
    ensures
        r@ == literal_chars(h.kv_seq()),
{
    let ghost kv = h.kv_seq();
    let items = h.iter();
    let n = items.len();
    let mut out = String::new();
    push_str(&mut out, "'");
    proof {
        reveal_strlit("'");
        assert("'"@ =~= seq!['\'']);
        assert(out@ =~= seq!['\''] + joined_chars(kv.take(0)));
    }
    let mut i: usize = 0;
    while i < n
        invariant
            n == items@.len(),
            i <= n,
            crate::map::pairs_view(items@) == kv,
            out@ == seq!['\''] + joined_chars(kv.take(i as int)),
        decreases n - i,
    {
        if i > 0 {
            push_str(&mut out, ",");
            proof {
                reveal_strlit(",");
                assert(","@ =~= seq![',']);
            }
        }
        push_str(&mut out, items[i].0.as_str());
        push_str(&mut out, "=>");
        push_str(&mut out, items[i].1.as_str());
        proof {
            reveal_strlit("=>");
            assert("=>"@ =~= seq!['=', '>']);
            assert(kv.take(i as int).push(kv[i as int]) =~= kv.take(i as int + 1));
            lemma_joined_push(kv.take(i as int), kv[i as int]);
            assert(entry_chars(kv[i as int]) =~= items@[i as int].0@ + seq!['=', '>']
                + items@[i as int].1@);
            assert(out@ =~= seq!['\''] + joined_chars(kv.take(i as int + 1)));
        }
        i = i + 1;
    }
    push_str(&mut out, "'::hstore");
    proof {
        reveal_strlit("'::hstore");
        assert("'::hstore"@ =~= seq!['\'', ':', ':', 'h', 's', 't', 'o', 'r', 'e']);
        assert(kv.take(n as int) =~= kv);
        assert(out@ =~= literal_chars(kv));
    }
    out
}

/// Renders the map as an inline literal, or reports the empty map, which
/// has no rendering, instead of failing.
pub fn render_literal_checked(h: &Hstore) -> (r: Option<String>)
    ensures
        h.kv_seq().len() == 0 ==> r is None,
        h.kv_seq().len() > 0 ==> (r matches Some(t) && t@ == literal_chars(h.kv_seq())),
{
    let items = h.iter();
    if items.len() == 0 {
        proof {
            assert(crate::map::pairs_view(items@).len() == 0);
        }
        None
    } else {
        Some(render_literal(h))
    }
}

} // verus!
