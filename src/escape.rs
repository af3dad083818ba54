//! The partial HTML escape: only `<` and `>` are replaced.

use vstd::prelude::*;
use vstd::string::axiom_spec_iter;

verus! {

/// What one character becomes in escaped text.
pub open spec fn escape_char(c: char) -> Seq<char> {
    if c == '<' {
        seq!['&', 'l', 't', ';']
    } else if c == '>' {
        seq!['&', 'g', 't', ';']
    } else {
        seq![c]
    }
}

/// `s` with every `<` written as `&lt;` and every `>` as `&gt;`.
pub open spec fn escaped(s: Seq<char>) -> Seq<char>
    decreases s.len(),
{
    if s.len() == 0 {
        Seq::empty()
    } else {
        escaped(s.drop_last()) + escape_char(s.last())
    }
}

/// `s` holds neither `<` nor `>`.
pub open spec fn bracket_free(s: Seq<char>) -> bool {
    forall|i: int| 0 <= i < s.len() ==> #[trigger] s[i] != '<' && s[i] != '>'
}

/// The escape of `<`.
pub open spec fn lt_entity() -> Seq<char> {
    seq!['&', 'l', 't', ';']
}

/// The escape of `>`.
pub open spec fn gt_entity() -> Seq<char> {
    seq!['&', 'g', 't', ';']
}

/// `s` holds no `&lt;` and no `&gt;` of its own, which unescaping would
/// take for an escaped bracket: no suffix of it starts with either.
pub open spec fn entity_free(s: Seq<char>) -> bool
    decreases s.len(),
{
    if s.len() == 0 {
        true
    } else {
        &&& !(s.len() >= 4 && (s.take(4) == lt_entity() || s.take(4) == gt_entity()))
        &&& entity_free(s.drop_first())
    }
}

/// Reads `&lt;` back as `<` and `&gt;` as `>`, from left to right.
pub open spec fn unescape(s: Seq<char>) -> Seq<char>
    decreases s.len(),
{
    if s.len() == 0 {
        Seq::empty()
    } else if s.len() >= 4 && s.take(4) == lt_entity() {
        seq!['<'] + unescape(s.skip(4))
    } else if s.len() >= 4 && s.take(4) == gt_entity() {
        seq!['>'] + unescape(s.skip(4))
    } else {
        seq![s[0]] + unescape(s.drop_first())
    }
}

/// Escaping a concatenation escapes each part.
pub proof fn lemma_escaped_concat(a: Seq<char>, b: Seq<char>)
    ensures
        escaped(a + b) == escaped(a) + escaped(b),
    decreases b.len(),
{
    if b.len() == 0 {
        assert(a + b =~= a);
        assert(escaped(a) + escaped(b) =~= escaped(a));
    } else {
        assert((a + b).drop_last() =~= a + b.drop_last());
        assert((a + b).last() == b.last());
        lemma_escaped_concat(a, b.drop_last());
        assert(escaped(a + b) =~= escaped(a) + escaped(b));
    }
}

/// The escape of a nonempty sequence is that of its first character, then
/// that of the rest.
pub proof fn lemma_escaped_first(s: Seq<char>)
    requires
        s.len() > 0,
    ensures
        escaped(s) == escape_char(s[0]) + escaped(s.drop_first()),
{
    let head = seq![s[0]];
    assert(s =~= head + s.drop_first());
    lemma_escaped_concat(head, s.drop_first());
    assert(head.drop_last() =~= Seq::<char>::empty());
    assert(escaped(head.drop_last()) =~= Seq::<char>::empty());
    assert(escaped(head) =~= escape_char(s[0]));
}

/// Escaped text holds no bracket.
pub proof fn lemma_escaped_bracket_free(s: Seq<char>)
    ensures
        bracket_free(escaped(s)),
    decreases s.len(),
{
    if s.len() > 0 {
        lemma_escaped_bracket_free(s.drop_last());
        let e = escaped(s.drop_last());
        let c = escape_char(s.last());
        assert forall|i: int| 0 <= i < (e + c).len() implies #[trigger] (e + c)[i] != '<' && (e
            + c)[i] != '>' by {
            if i >= e.len() {
                assert((e + c)[i] == c[i - e.len()]);
            } else {
                assert((e + c)[i] == e[i]);
            }
        }
    }
}

/// Where the escape of `s` starts with `k` characters none of which is `&`,
/// `s` starts with the same `k` characters.
proof fn lemma_escaped_plain_prefix(s: Seq<char>, k: int)
    requires
        0 <= k <= escaped(s).len(),
        forall|j: int| 0 <= j < k ==> #[trigger] escaped(s)[j] != '&',
    ensures
        k <= s.len(),
        s.take(k) == escaped(s).take(k),
    decreases k,
{
    if k > 0 {
        if s.len() == 0 {
            assert(escaped(s).len() == 0);
        }
        lemma_escaped_first(s);
        let rest = s.drop_first();
        assert(escaped(s)[0] != '&');
        assert(escaped(s) =~= seq![s[0]] + escaped(rest));
        assert forall|j: int| 0 <= j < k - 1 implies #[trigger] escaped(rest)[j] != '&' by {
            assert(escaped(rest)[j] == escaped(s)[j + 1]);
        }
        lemma_escaped_plain_prefix(rest, k - 1);
        assert(s.take(k) =~= seq![s[0]] + rest.take(k - 1));
        assert(escaped(s).take(k) =~= seq![s[0]] + escaped(rest).take(k - 1));
    }
}

/// Unescaping undoes escaping, for text that holds no entity of its own.
pub proof fn lemma_unescape_escaped(s: Seq<char>)
    requires
        entity_free(s),
    ensures
        unescape(escaped(s)) == s,
    decreases s.len(),
{
    if s.len() == 0 {
        assert(escaped(s) =~= Seq::<char>::empty());
    } else {
        let rest = s.drop_first();
        let e = escaped(s);
        let er = escaped(rest);
        lemma_unescape_escaped(rest);
        lemma_escaped_first(s);
        let c = s[0];
        if c == '<' {
            assert(e.take(4) =~= lt_entity());
            assert(e.skip(4) =~= er);
            assert(unescape(e) =~= s);
        } else if c == '>' {
            assert(e.take(4) =~= gt_entity());
            assert(e.take(4) != lt_entity());
            assert(e.skip(4) =~= er);
            assert(unescape(e) =~= s);
        } else {
            assert(e =~= seq![c] + er);
            if e.len() >= 4 && (e.take(4) == lt_entity() || e.take(4) == gt_entity()) {
                assert(c == '&');
                assert(er.len() >= 3);
                assert(e.take(4)[1] == er[0]);
                assert(e.take(4)[2] == er[1]);
                assert(e.take(4)[3] == er[2]);
                assert(lt_entity()[1] == 'l' && lt_entity()[2] == 't' && lt_entity()[3] == ';');
                assert(gt_entity()[1] == 'g' && gt_entity()[2] == 't' && gt_entity()[3] == ';');
                lemma_escaped_plain_prefix(rest, 3);
                assert(s.take(4) =~= seq![c] + rest.take(3));
                assert(s.take(4) =~= e.take(4));
                assert(false);
            }
            assert(e.drop_first() =~= er);
            assert(unescape(e) =~= s);
        }
    }
}

/// Replaces `<` with `&lt;` and `>` with `&gt;`; every other character,
/// `&` and `"` included, is kept as it is.
pub fn html_escape(text: &str) -> (r: String)
    ensures
        r@ == escaped(text@),
{
    broadcast use axiom_spec_iter;

    let mut out = String::new();
    for c in it: text.chars()
        invariant
            it.seq() == text@,
            out@ == escaped(text@.take(it.index() as int)),
    {
        proof {
            reveal_strlit("&lt;");
            reveal_strlit("&gt;");
            let i = it.index() as int;
            assert(text@.take(i + 1).drop_last() =~= text@.take(i));
        }
        if c == '<' {
            out.push_str("&lt;");
        } else if c == '>' {
            out.push_str("&gt;");
        } else {
            out.push(c);
        }
    }
    assert(text@.take(text@.len() as int) =~= text@);
    out
}

} // verus!
