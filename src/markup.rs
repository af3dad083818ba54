//! Laws of the rendered fragment: the markup that rendering adds can be
//! taken off again, and without coloring the bindings leave no trace.

use crate::color::{binding_color, binding_hsl_of, decimal, digit_char};
use crate::escape::{
    bracket_free, entity_free, escaped, lemma_escaped_bracket_free, lemma_escaped_concat,
    lemma_unescape_escaped, unescape,
};
use crate::render::{
    binding_attrs, class_text, gap_start, lemma_boundary_of_suffix, lemma_chars_of_bytes, piece,
    ranges_fit, rendered, rendered_ranges, span_open, span_text, tag_class, HighlightRange, Tag,
    STYLE,
};
use vstd::prelude::*;
use vstd::string::StringSliceAdditionalSpecFns;
use vstd::utf8::{
    decode_utf8_split, is_char_boundary, is_char_boundary_iff_not_is_continuation_byte,
    is_char_boundary_start_end_of_seq, valid_utf8, valid_utf8_split,
};

verus! {

/// A class name holds no bracket.
proof fn lemma_tag_class_bracket_free(t: Tag)
    ensures
        bracket_free(tag_class(t)),
{
    reveal_strlit("lifetime");
    reveal_strlit("comment");
    reveal_strlit("struct");
    reveal_strlit("enum");
    reveal_strlit("enum_variant");
    reveal_strlit("string_literal");
    reveal_strlit("field");
    reveal_strlit("function");
    reveal_strlit("parameter");
    reveal_strlit("text");
    reveal_strlit("type");
    reveal_strlit("builtin_type");
    reveal_strlit("type_param");
    reveal_strlit("attribute");
    reveal_strlit("numeric_literal");
    reveal_strlit("macro");
    reveal_strlit("module");
    reveal_strlit("variable");
    reveal_strlit("mutable");
    reveal_strlit("keyword");
    reveal_strlit("unsafe");
    reveal_strlit("control");
}

/// `s` with every tag taken out: each `<`, what follows it up to the next
/// `>`, and that `>`; `in_tag` says whether `s` starts inside a tag.
pub open spec fn strip_from(s: Seq<char>, in_tag: bool) -> Seq<char>
    decreases s.len(),
{
    if s.len() == 0 {
        Seq::empty()
    } else if in_tag {
        strip_from(s.drop_first(), s[0] != '>')
    } else if s[0] == '<' {
        strip_from(s.drop_first(), true)
    } else {
        seq![s[0]] + strip_from(s.drop_first(), false)
    }
}

/// `s` with every tag taken out.
pub open spec fn strip_tags(s: Seq<char>) -> Seq<char> {
    strip_from(s, false)
}

proof fn lemma_bracket_free_concat(a: Seq<char>, b: Seq<char>)
    requires
        bracket_free(a),
        bracket_free(b),
    ensures
        bracket_free(a + b),
{
    assert forall|i: int| 0 <= i < (a + b).len() implies #[trigger] (a + b)[i] != '<' && (a
        + b)[i] != '>' by {
        if i < a.len() {
            assert((a + b)[i] == a[i]);
        } else {
            assert((a + b)[i] == b[i - a.len()]);
        }
    }
}

/// Text without brackets passes through untouched.
proof fn lemma_strip_plain(x: Seq<char>, b: Seq<char>)
    requires
        bracket_free(x),
    ensures
        strip_from(x + b, false) == x + strip_from(b, false),
    decreases x.len(),
{
    if x.len() == 0 {
        assert(x + b =~= b);
        assert(x + strip_from(b, false) =~= strip_from(b, false));
    } else {
        let rest = x.drop_first();
        assert((x + b)[0] == x[0]);
        assert((x + b).drop_first() =~= rest + b);
        assert forall|i: int| 0 <= i < rest.len() implies #[trigger] rest[i] != '<' && rest[i]
            != '>' by {
            assert(rest[i] == x[i + 1]);
        }
        lemma_strip_plain(rest, b);
        assert(x + strip_from(b, false) =~= seq![x[0]] + (rest + strip_from(b, false)));
    }
}

/// Inside a tag, everything up to and including the closing `>` goes.
proof fn lemma_strip_in_tag(m: Seq<char>, b: Seq<char>)
    requires
        bracket_free(m),
    ensures
        strip_from(m + seq!['>'] + b, true) == strip_from(b, false),
    decreases m.len(),
{
    let s = m + seq!['>'] + b;
    if m.len() == 0 {
        assert(s[0] == '>');
        assert(s.drop_first() =~= b);
    } else {
        let rest = m.drop_first();
        assert(s[0] == m[0]);
        assert(s.drop_first() =~= rest + seq!['>'] + b);
        assert forall|i: int| 0 <= i < rest.len() implies #[trigger] rest[i] != '<' && rest[i]
            != '>' by {
            assert(rest[i] == m[i + 1]);
        }
        lemma_strip_in_tag(rest, b);
    }
}

/// A whole tag goes.
proof fn lemma_strip_tag(m: Seq<char>, b: Seq<char>)
    requires
        bracket_free(m),
    ensures
        strip_from(seq!['<'] + m + seq!['>'] + b, false) == strip_from(b, false),
{
    let s = seq!['<'] + m + seq!['>'] + b;
    assert(s[0] == '<');
    assert(s.drop_first() =~= m + seq!['>'] + b);
    lemma_strip_in_tag(m, b);
}

proof fn lemma_decimal_bracket_free(n: nat)
    ensures
        bracket_free(decimal(n)),
    decreases n,
{
    assert(digit_char(n % 10) != '<' && digit_char(n % 10) != '>');
    if n >= 10 {
        lemma_decimal_bracket_free(n / 10);
        lemma_bracket_free_concat(decimal(n / 10), seq![digit_char(n % 10)]);
        assert(decimal(n) =~= decimal(n / 10) + seq![digit_char(n % 10)]);
    }
}

proof fn lemma_class_text_bracket_free(tags: Seq<Tag>)
    ensures
        bracket_free(class_text(tags)),
    decreases tags.len(),
{
    if tags.len() == 1 {
        lemma_tag_class_bracket_free(tags[0]);
    } else if tags.len() > 1 {
        lemma_class_text_bracket_free(tags.drop_last());
        lemma_tag_class_bracket_free(tags.last());
        lemma_bracket_free_concat(class_text(tags.drop_last()), seq![' ']);
        lemma_bracket_free_concat(
            class_text(tags.drop_last()) + seq![' '],
            tag_class(tags.last()),
        );
    }
}

proof fn lemma_attrs_bracket_free(rainbow: bool, binding_hash: Option<u64>)
    ensures
        bracket_free(binding_attrs(rainbow, binding_hash)),
{
    if let Some(h) = binding_hash {
        if rainbow {
            reveal_strlit(" data-binding-hash=\"");
            reveal_strlit("\" style=\"color: ");
            reveal_strlit(";\"");
            let c = binding_hsl_of(h);
            lemma_decimal_bracket_free(c.0 as nat);
            lemma_decimal_bracket_free(c.1 as nat);
            lemma_decimal_bracket_free(c.2 as nat);
            lemma_decimal_bracket_free(h as nat);
            let p1 = seq!['h', 's', 'l', '('];
            let p2 = seq![','];
            let p3 = seq!['%', ','];
            let p4 = seq!['%', ')'];
            assert(bracket_free(p1) && bracket_free(p2) && bracket_free(p3) && bracket_free(p4));
            lemma_bracket_free_concat(p1, decimal(c.0 as nat));
            lemma_bracket_free_concat(p1 + decimal(c.0 as nat), p2);
            lemma_bracket_free_concat(p1 + decimal(c.0 as nat) + p2, decimal(c.1 as nat));
            lemma_bracket_free_concat(p1 + decimal(c.0 as nat) + p2 + decimal(c.1 as nat), p3);
            lemma_bracket_free_concat(
                p1 + decimal(c.0 as nat) + p2 + decimal(c.1 as nat) + p3,
                decimal(c.2 as nat),
            );
            lemma_bracket_free_concat(
                p1 + decimal(c.0 as nat) + p2 + decimal(c.1 as nat) + p3 + decimal(c.2 as nat),
                p4,
            );
            let a = " data-binding-hash=\""@;
            let b = "\" style=\"color: "@;
            let d = ";\""@;
            lemma_bracket_free_concat(a, decimal(h as nat));
            lemma_bracket_free_concat(a + decimal(h as nat), b);
            lemma_bracket_free_concat(a + decimal(h as nat) + b, binding_color(h));
            lemma_bracket_free_concat(a + decimal(h as nat) + b + binding_color(h), d);
        }
    }
}

/// The inside of the opening tag of a span, between its `<` and `>`.
spec fn span_inner(r: HighlightRange, rainbow: bool) -> Seq<char> {
    "span class=\""@ + class_text(r.category@) + "\""@ + binding_attrs(rainbow, r.binding_hash)
}

proof fn lemma_span_open_is_a_tag(r: HighlightRange, rainbow: bool)
    ensures
        span_open(r, rainbow) == seq!['<'] + span_inner(r, rainbow) + seq!['>'],
        bracket_free(span_inner(r, rainbow)),
{
    reveal_strlit("<span class=\"");
    reveal_strlit("span class=\"");
    reveal_strlit("\"");
    reveal_strlit(">");
    assert(span_open(r, rainbow) =~= seq!['<'] + span_inner(r, rainbow) + seq!['>']);
    lemma_class_text_bracket_free(r.category@);
    lemma_attrs_bracket_free(rainbow, r.binding_hash);
    let a = "span class=\""@;
    let q = "\""@;
    lemma_bracket_free_concat(a, class_text(r.category@));
    lemma_bracket_free_concat(a + class_text(r.category@), q);
    lemma_bracket_free_concat(
        a + class_text(r.category@) + q,
        binding_attrs(rainbow, r.binding_hash),
    );
}

/// The bytes of `[a, b)` and of `[b, c)` decode to those of `[a, c)`.
proof fn lemma_piece_concat(bytes: Seq<u8>, a: int, b: int, c: int)
    requires
        valid_utf8(bytes),
        0 <= a <= b <= c <= bytes.len(),
        is_char_boundary(bytes, a),
        is_char_boundary(bytes, b),
        is_char_boundary(bytes, c),
    ensures
        piece(bytes, a, b) + piece(bytes, b, c) == piece(bytes, a, c),
{
    let suffix = bytes.subrange(a, bytes.len() as int);
    lemma_boundary_of_suffix(bytes, a, b);
    lemma_boundary_of_suffix(bytes, a, c);
    valid_utf8_split(suffix, c - a);
    let mid = suffix.subrange(0, c - a);
    assert(mid =~= bytes.subrange(a, c));
    is_char_boundary_start_end_of_seq(mid);
    if b < c {
        is_char_boundary_iff_not_is_continuation_byte(suffix, b - a);
        is_char_boundary_iff_not_is_continuation_byte(mid, b - a);
    }
    decode_utf8_split(mid, b - a);
    assert(mid.subrange(0, b - a) =~= bytes.subrange(a, b));
    assert(mid.subrange(b - a, mid.len() as int) =~= bytes.subrange(b, c));
}

/// Taking the tags out of the text before a range and the range's span
/// leaves both texts escaped.
proof fn lemma_strip_one_range(
    r: HighlightRange,
    rainbow: bool,
    gap: Seq<char>,
    content: Seq<char>,
    tail: Seq<char>,
)
    ensures
        strip_from(escaped(gap) + span_text(r, rainbow, content) + tail, false) == escaped(gap)
            + escaped(content) + strip_from(tail, false),
{
    let eg = escaped(gap);
    let ec = escaped(content);
    let close = "</span>"@;
    let after_open = ec + close + tail;
    assert(eg + span_text(r, rainbow, content) + tail =~= eg + (span_open(r, rainbow)
        + after_open));
    lemma_escaped_bracket_free(gap);
    lemma_strip_plain(eg, span_open(r, rainbow) + after_open);
    lemma_span_open_is_a_tag(r, rainbow);
    assert(span_open(r, rainbow) + after_open =~= seq!['<'] + span_inner(r, rainbow) + seq!['>']
        + after_open);
    lemma_strip_tag(span_inner(r, rainbow), after_open);
    lemma_escaped_bracket_free(content);
    lemma_strip_plain(ec, close + tail);
    assert(after_open =~= ec + (close + tail));
    reveal_strlit("</span>");
    let inner_close = seq!['/', 's', 'p', 'a', 'n'];
    assert(close + tail =~= seq!['<'] + inner_close + seq!['>'] + tail);
    lemma_strip_tag(inner_close, tail);
    assert(eg + (ec + strip_from(tail, false)) =~= eg + ec + strip_from(tail, false));
}

/// Taking the tags out of the first `n` ranges, written out, leaves the
/// escaped text up to the end of range `n - 1`.
proof fn lemma_strip_rendered_ranges(
    bytes: Seq<u8>,
    ranges: Seq<HighlightRange>,
    rainbow: bool,
    n: int,
    tail: Seq<char>,
)
    requires
        valid_utf8(bytes),
        ranges_fit(bytes, ranges),
        0 <= n <= ranges.len(),
    ensures
        strip_from(rendered_ranges(bytes, ranges, rainbow, n) + tail, false) == escaped(
            piece(bytes, 0, gap_start(ranges, n)),
        ) + strip_from(tail, false),
        0 <= gap_start(ranges, n) <= bytes.len(),
        is_char_boundary(bytes, gap_start(ranges, n)),
    decreases n,
{
    is_char_boundary_start_end_of_seq(bytes);
    if n == 0 {
        assert(rendered_ranges(bytes, ranges, rainbow, 0) + tail =~= tail);
        assert(bytes.subrange(0, 0) =~= Seq::<u8>::empty());
        assert(piece(bytes, 0, 0) =~= Seq::<char>::empty());
        assert(escaped(Seq::<char>::empty()) + strip_from(tail, false) =~= strip_from(tail, false));
    } else {
        let r = ranges[n - 1];
        let g = gap_start(ranges, n - 1);
        if n > 1 {
            assert(ranges[n - 2].end <= ranges[n - 1].start);
        }
        assert(r.start <= r.end <= bytes.len());
        let gap = piece(bytes, g, r.start as int);
        let content = piece(bytes, r.start as int, r.end as int);
        let rest = escaped(gap) + span_text(r, rainbow, content) + tail;
        assert(rendered_ranges(bytes, ranges, rainbow, n) + tail =~= rendered_ranges(
            bytes,
            ranges,
            rainbow,
            n - 1,
        ) + rest);
        lemma_strip_rendered_ranges(bytes, ranges, rainbow, n - 1, rest);
        lemma_strip_one_range(r, rainbow, gap, content, tail);
        lemma_piece_concat(bytes, 0, g, r.start as int);
        lemma_piece_concat(bytes, 0, r.start as int, r.end as int);
        lemma_escaped_concat(piece(bytes, 0, g), piece(bytes, g, r.start as int));
        lemma_escaped_concat(piece(bytes, 0, r.start as int), piece(bytes, r.start as int, r.end as int));
        assert(escaped(piece(bytes, 0, g)) + (escaped(gap) + escaped(content) + strip_from(
            tail,
            false,
        )) =~= escaped(
            piece(bytes, 0, r.end as int),
        ) + strip_from(tail, false));
    }
}

/// Rendering adds markup only: the fragment starts with the style sheet, and
/// taking every tag out of what follows it leaves the escaped text.
pub proof fn lemma_markup_strips_to_escaped_text(
    text: &str,
    ranges: Seq<HighlightRange>,
    rainbow: bool,
)
    requires
        ranges_fit(text.spec_bytes(), ranges),
    ensures
        rendered(text.spec_bytes(), ranges, rainbow).take(STYLE@.len() as int) == STYLE@,
        strip_tags(rendered(text.spec_bytes(), ranges, rainbow).skip(STYLE@.len() as int))
            == escaped(text@),
{
    let bytes = text.spec_bytes();
    lemma_chars_of_bytes(text);
    let n = ranges.len() as int;
    let g = gap_start(ranges, n);
    let out = rendered(bytes, ranges, rainbow);
    let body = rendered_ranges(bytes, ranges, rainbow, n);
    let last = escaped(piece(bytes, g, bytes.len() as int));
    reveal_strlit("<pre><code>");
    reveal_strlit("</code></pre>");
    let pre = seq!['p', 'r', 'e'];
    let code = seq!['c', 'o', 'd', 'e'];
    let end_code = seq!['/', 'c', 'o', 'd', 'e'];
    let end_pre = seq!['/', 'p', 'r', 'e'];
    let close_pre = seq!['<'] + end_pre + seq!['>'] + Seq::<char>::empty();
    let closing = seq!['<'] + end_code + seq!['>'] + close_pre;
    let after_code = body + (last + closing);
    let after_pre = seq!['<'] + code + seq!['>'] + after_code;
    assert(out.take(STYLE@.len() as int) =~= STYLE@);
    assert(out.skip(STYLE@.len() as int) =~= seq!['<'] + pre + seq!['>'] + after_pre);
    lemma_strip_tag(pre, after_pre);
    lemma_strip_tag(code, after_code);
    lemma_strip_rendered_ranges(bytes, ranges, rainbow, n, last + closing);
    lemma_escaped_bracket_free(piece(bytes, g, bytes.len() as int));
    lemma_strip_plain(last, closing);
    lemma_strip_tag(end_code, close_pre);
    lemma_strip_tag(end_pre, Seq::<char>::empty());
    is_char_boundary_start_end_of_seq(bytes);
    lemma_piece_concat(bytes, 0, g, bytes.len() as int);
    lemma_escaped_concat(piece(bytes, 0, g), piece(bytes, g, bytes.len() as int));
    assert(bytes.subrange(0, bytes.len() as int) =~= bytes);
    assert(escaped(piece(bytes, 0, g)) + last + Seq::<char>::empty() =~= escaped(text@));
}

/// Rendering keeps the text: drop the style sheet from the front of the
/// fragment, take every tag out, undo the escape, and the text is back. This
/// holds for every text that does not itself hold `&lt;` or `&gt;`, which
/// the escape leaves as they are.
pub proof fn lemma_round_trip(text: &str, ranges: Seq<HighlightRange>, rainbow: bool)
    requires
        ranges_fit(text.spec_bytes(), ranges),
        entity_free(text@),
    ensures
        rendered(text.spec_bytes(), ranges, rainbow).take(STYLE@.len() as int) == STYLE@,
        unescape(
            strip_tags(rendered(text.spec_bytes(), ranges, rainbow).skip(STYLE@.len() as int)),
        ) == text@,
{
    lemma_markup_strips_to_escaped_text(text, ranges, rainbow);
    lemma_unescape_escaped(text@);
}

/// Two range lists that differ at most in their binding ids.
pub open spec fn same_but_bindings(a: Seq<HighlightRange>, b: Seq<HighlightRange>) -> bool {
    &&& a.len() == b.len()
    &&& forall|i: int|
        0 <= i < a.len() ==> {
            &&& #[trigger] a[i].start == b[i].start
            &&& a[i].end == b[i].end
            &&& a[i].category@ == b[i].category@
        }
}

/// Without coloring, a span's opening tag holds its class list and nothing else.
pub proof fn lemma_uncolored_span(r: HighlightRange)
    ensures
        span_open(r, false) == "<span class=\""@ + class_text(r.category@) + "\""@ + ">"@,
{
    assert(binding_attrs(false, r.binding_hash) =~= Seq::<char>::empty());
    assert(span_open(r, false) =~= "<span class=\""@ + class_text(r.category@) + "\""@ + ">"@);
}

proof fn lemma_uncolored_ranges(
    bytes: Seq<u8>,
    a: Seq<HighlightRange>,
    b: Seq<HighlightRange>,
    n: int,
)
    requires
        same_but_bindings(a, b),
        0 <= n <= a.len(),
    ensures
        rendered_ranges(bytes, a, false, n) == rendered_ranges(bytes, b, false, n),
        gap_start(a, n) == gap_start(b, n),
    decreases n,
{
    if n > 0 {
        lemma_uncolored_ranges(bytes, a, b, n - 1);
        assert(a[n - 1].start == b[n - 1].start);
        lemma_uncolored_span(a[n - 1]);
        lemma_uncolored_span(b[n - 1]);
    }
}

/// With coloring off, the binding ids of the ranges change nothing in the
/// fragment: no span carries a binding or a color, whatever ids the ranges hold.
pub proof fn lemma_uncolored_ignores_bindings(
    bytes: Seq<u8>,
    a: Seq<HighlightRange>,
    b: Seq<HighlightRange>,
)
    requires
        same_but_bindings(a, b),
    ensures
        rendered(bytes, a, false) == rendered(bytes, b, false),
{
    lemma_uncolored_ranges(bytes, a, b, a.len() as int);
}

} // verus!
