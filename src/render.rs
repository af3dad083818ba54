//! Merges highlight ranges into the text and writes the HTML fragment.

use crate::color::{binding_color, decimal, push_decimal, rainbowify};
use crate::escape::{escaped, html_escape};
use vstd::prelude::*;
use vstd::string::StringSliceAdditionalSpecFns;
use vstd::utf8::{
    decode_utf8, encode_utf8_decode_utf8, encode_utf8_valid_utf8, is_char_boundary,
    is_char_boundary_iff_not_is_continuation_byte, is_char_boundary_start_end_of_seq,
    valid_utf8, valid_utf8_split,
};

verus! {

/// One segment of a highlight category; a category lists one or more of
/// them, from the general to the special (`keyword` then `unsafe`).
#[derive(Clone, Copy, Debug, PartialEq, Eq)]
pub enum Tag {
    Lifetime,
    Comment,
    Struct,
    Enum,
    EnumVariant,
    StringLiteral,
    Field,
    Function,
    Parameter,
    Text,
    Type,
    BuiltinType,
    TypeParam,
    Attribute,
    NumericLiteral,
    Macro,
    Module,
    Variable,
    Mutable,
    Keyword,
    Unsafe,
    Control,
}

/// The CSS class of a tag.
pub open spec fn tag_class(t: Tag) -> Seq<char> {
    match t {
        Tag::Lifetime => "lifetime"@,
        Tag::Comment => "comment"@,
        Tag::Struct => "struct"@,
        Tag::Enum => "enum"@,
        Tag::EnumVariant => "enum_variant"@,
        Tag::StringLiteral => "string_literal"@,
        Tag::Field => "field"@,
        Tag::Function => "function"@,
        Tag::Parameter => "parameter"@,
        Tag::Text => "text"@,
        Tag::Type => "type"@,
        Tag::BuiltinType => "builtin_type"@,
        Tag::TypeParam => "type_param"@,
        Tag::Attribute => "attribute"@,
        Tag::NumericLiteral => "numeric_literal"@,
        Tag::Macro => "macro"@,
        Tag::Module => "module"@,
        Tag::Variable => "variable"@,
        Tag::Mutable => "mutable"@,
        Tag::Keyword => "keyword"@,
        Tag::Unsafe => "unsafe"@,
        Tag::Control => "control"@,
    }
}

impl Tag {
    /// The CSS class of this tag.
    pub fn class_name(&self) -> (r: &'static str)
        ensures
            r@ == tag_class(*self),
    {
        match self {
            Tag::Lifetime => "lifetime",
            Tag::Comment => "comment",
            Tag::Struct => "struct",
            Tag::Enum => "enum",
            Tag::EnumVariant => "enum_variant",
            Tag::StringLiteral => "string_literal",
            Tag::Field => "field",
            Tag::Function => "function",
            Tag::Parameter => "parameter",
            Tag::Text => "text",
            Tag::Type => "type",
            Tag::BuiltinType => "builtin_type",
            Tag::TypeParam => "type_param",
            Tag::Attribute => "attribute",
            Tag::NumericLiteral => "numeric_literal",
            Tag::Macro => "macro",
            Tag::Module => "module",
            Tag::Variable => "variable",
            Tag::Mutable => "mutable",
            Tag::Keyword => "keyword",
            Tag::Unsafe => "unsafe",
            Tag::Control => "control",
        }
    }
}

/// The class list of a category: its tags' classes joined by single spaces.
pub open spec fn class_text(tags: Seq<Tag>) -> Seq<char>
    decreases tags.len(),
{
    if tags.len() == 0 {
        Seq::empty()
    } else if tags.len() == 1 {
        tag_class(tags[0])
    } else {
        class_text(tags.drop_last()) + seq![' '] + tag_class(tags.last())
    }
}

/// Appends the class list of `tags`.
pub fn push_classes(out: &mut String, tags: &Vec<Tag>)
    ensures
        final(out)@ == old(out)@ + class_text(tags@),
{
    let mut i: usize = 0;
    while i < tags.len()
        invariant
            i <= tags@.len(),
            out@ == old(out)@ + class_text(tags@.take(i as int)),
        decreases tags@.len() - i,
    {
        if i > 0 {
            out.push(' ');
        }
        out.push_str(tags[i].class_name());
        proof {
            let next = tags@.take(i + 1);
            assert(next.drop_last() =~= tags@.take(i as int));
            if i == 0 {
                assert(tags@.take(0) =~= Seq::<Tag>::empty());
                assert(out@ =~= old(out)@ + class_text(next));
            } else {
                assert(out@ =~= old(out)@ + class_text(next));
            }
        }
        i = i + 1;
    }
    assert(tags@.take(tags@.len() as int) =~= tags@);
}

/// A highlighted span of the text: the bytes `[start, end)`, its category,
/// and the binding it names, if any.
#[derive(Clone, Debug)]
pub struct HighlightRange {
    pub start: usize,
    pub end: usize,
    pub category: Vec<Tag>,
    pub binding_hash: Option<u64>,
}

/// The style sheet that heads every fragment.
pub const STYLE: &'static str = "
<style>
body                { margin: 0; }
pre                 { color: #DCDCCC; background: #3F3F3F; font-size: 22px; padding: 0.4em; }

.lifetime           { color: #DFAF8F; font-style: italic; }
.comment            { color: #7F9F7F; }
.struct, .enum      { color: #7CB8BB; }
.enum_variant       { color: #BDE0F3; }
.string_literal     { color: #CC9393; }
.field              { color: #94BFF3; }
.function           { color: #93E0E3; }
.parameter          { color: #94BFF3; }
.text               { color: #DCDCCC; }
.type               { color: #7CB8BB; }
.builtin_type       { color: #8CD0D3; }
.type_param         { color: #DFAF8F; }
.attribute          { color: #94BFF3; }
.numeric_literal    { color: #BFEBBF; }
.macro              { color: #94BFF3; }
.module             { color: #AFD8AF; }
.variable           { color: #DCDCCC; }
.mutable            { text-decoration: underline; }

.keyword            { color: #F0DFAF; font-weight: bold; }
.keyword.unsafe     { color: #BC8383; font-weight: bold; }
.control            { font-style: italic; }
</style>
";

/// The characters of the bytes `[a, b)` of a UTF-8 text.
pub open spec fn piece(bytes: Seq<u8>, a: int, b: int) -> Seq<char> {
    decode_utf8(bytes.subrange(a, b))
}

/// The ranges lie in the text, each starts and ends on a character boundary,
/// and each ends no later than the next one starts.
pub open spec fn ranges_fit(bytes: Seq<u8>, ranges: Seq<HighlightRange>) -> bool {
    &&& forall|i: int|
        0 <= i < ranges.len() ==> {
            &&& #[trigger] ranges[i].start <= ranges[i].end <= bytes.len()
            &&& is_char_boundary(bytes, ranges[i].start as int)
            &&& is_char_boundary(bytes, ranges[i].end as int)
        }
    &&& forall|i: int| 0 < i < ranges.len() ==> ranges[i - 1].end <= #[trigger] ranges[i].start
}

/// Where the text before range `i` starts: the end of range `i - 1`, or 0.
pub open spec fn gap_start(ranges: Seq<HighlightRange>, i: int) -> int {
    if i <= 0 {
        0
    } else {
        ranges[i - 1].end as int
    }
}

/// The attributes that color a span: present only when coloring is asked for
/// and the range names a binding.
pub open spec fn binding_attrs(rainbow: bool, binding_hash: Option<u64>) -> Seq<char> {
    match binding_hash {
        Some(h) => if rainbow {
            " data-binding-hash=\""@ + decimal(h as nat) + "\" style=\"color: "@ + binding_color(h)
                + ";\""@
        } else {
            Seq::empty()
        },
        None => Seq::empty(),
    }
}

/// The opening tag of the span for `r`.
pub open spec fn span_open(r: HighlightRange, rainbow: bool) -> Seq<char> {
    "<span class=\""@ + class_text(r.category@) + "\""@ + binding_attrs(rainbow, r.binding_hash)
        + ">"@
}

/// The span for `r` around the characters `content`.
pub open spec fn span_text(r: HighlightRange, rainbow: bool, content: Seq<char>) -> Seq<char> {
    span_open(r, rainbow) + escaped(content) + "</span>"@
}

/// The first `n` ranges written out, each after the text that precedes it.
pub open spec fn rendered_ranges(
    bytes: Seq<u8>,
    ranges: Seq<HighlightRange>,
    rainbow: bool,
    n: int,
) -> Seq<char>
    decreases n,
{
    if n <= 0 {
        Seq::empty()
    } else {
        let r = ranges[n - 1];
        rendered_ranges(bytes, ranges, rainbow, n - 1) + escaped(
            piece(bytes, gap_start(ranges, n - 1), r.start as int),
        ) + span_text(r, rainbow, piece(bytes, r.start as int, r.end as int))
    }
}

/// The whole fragment for a text whose UTF-8 bytes are `bytes`.
pub open spec fn rendered(bytes: Seq<u8>, ranges: Seq<HighlightRange>, rainbow: bool) -> Seq<char> {
    STYLE@ + "<pre><code>"@ + rendered_ranges(bytes, ranges, rainbow, ranges.len() as int)
        + escaped(piece(bytes, gap_start(ranges, ranges.len() as int), bytes.len() as int))
        + "</code></pre>"@
}

/// A boundary of a text at or after `p` is a boundary of the text from `p` on.
pub proof fn lemma_boundary_of_suffix(bytes: Seq<u8>, p: int, q: int)
    requires
        valid_utf8(bytes),
        0 <= p <= q <= bytes.len(),
        is_char_boundary(bytes, p),
        is_char_boundary(bytes, q),
    ensures
        valid_utf8(bytes.subrange(p, bytes.len() as int)),
        is_char_boundary(bytes.subrange(p, bytes.len() as int), q - p),
{
    let rest = bytes.subrange(p, bytes.len() as int);
    valid_utf8_split(bytes, p);
    is_char_boundary_start_end_of_seq(rest);
    if q < bytes.len() {
        is_char_boundary_iff_not_is_continuation_byte(bytes, q);
        is_char_boundary_iff_not_is_continuation_byte(rest, q - p);
    }
}

/// The characters of a string slice are those that its bytes encode.
pub proof fn lemma_chars_of_bytes(s: &str)
    ensures
        s@ == decode_utf8(s.spec_bytes()),
        valid_utf8(s.spec_bytes()),
{
    encode_utf8_decode_utf8(s@);
    encode_utf8_valid_utf8(s@);
}

/// Appends the span for `r` around `content`.
fn push_span(out: &mut String, r: &HighlightRange, content: &str, rainbow: bool)
    ensures
        final(out)@ == old(out)@ + span_text(*r, rainbow, content@),
{
    out.push_str("<span class=\"");
    push_classes(out, &r.category);
    out.push_str("\"");
    let ghost before_attrs = out@;
    match r.binding_hash {
        Some(h) => if rainbow {
            out.push_str(" data-binding-hash=\"");
            push_decimal(out, h);
            out.push_str("\" style=\"color: ");
            let color = rainbowify(h);
            out.push_str(color.as_str());
            out.push_str(";\"");
        },
        None => {},
    }
    assert(out@ =~= before_attrs + binding_attrs(rainbow, r.binding_hash));
    out.push_str(">");
    let text = html_escape(content);
    out.push_str(text.as_str());
    out.push_str("</span>");
    assert(out@ =~= old(out)@ + span_text(*r, rainbow, content@));
}

/// Writes `text` as an HTML fragment: the style sheet, then a `pre`/`code`
/// block holding the text with `<` and `>` escaped, where each range stands in
/// a `span` whose class list is its category. With `rainbow`, a range that
/// names a binding also carries the binding and its color.
#[verifier::rlimit(40)]
pub fn highlight_as_html(text: &str, ranges: &[HighlightRange], rainbow: bool) -> (r: String)
    requires
        ranges_fit(text.spec_bytes(), ranges@),
    ensures
        r@ == rendered(text.spec_bytes(), ranges@, rainbow),
{
    let ghost bytes = text.spec_bytes();
    proof {
        lemma_chars_of_bytes(text);
        is_char_boundary_start_end_of_seq(bytes);
        assert(bytes.subrange(0, bytes.len() as int) =~= bytes);
    }
    let mut buf = String::new();
    buf.push_str(STYLE);
    buf.push_str("<pre><code>");
    let mut prev: usize = 0;
    let mut rest: &str = text;
    let mut i: usize = 0;
    while i < ranges.len()
        invariant
            valid_utf8(bytes),
            ranges_fit(bytes, ranges@),
            i <= ranges@.len(),
            prev == gap_start(ranges@, i as int),
            prev <= bytes.len(),
            is_char_boundary(bytes, prev as int),
            rest.spec_bytes() == bytes.subrange(prev as int, bytes.len() as int),
            buf@ == STYLE@ + "<pre><code>"@ + rendered_ranges(bytes, ranges@, rainbow, i as int),
        decreases ranges@.len() - i,
    {
        let range = &ranges[i];
        let ghost start = range.start as int;
        let ghost end = range.end as int;
        proof {
            if i > 0 {
                assert(ranges@[i - 1].end <= ranges@[i as int].start);
            }
            assert(ranges@[i as int].start <= ranges@[i as int].end);
            lemma_boundary_of_suffix(bytes, prev as int, start);
        }
        let (gap, after) = rest.split_at(range.start - prev);
        proof {
            assert(after.spec_bytes() =~= bytes.subrange(start, bytes.len() as int));
            assert(gap.spec_bytes() =~= bytes.subrange(prev as int, start));
            lemma_boundary_of_suffix(bytes, start, end);
            lemma_chars_of_bytes(gap);
        }
        let (inside, after2) = after.split_at(range.end - range.start);
        proof {
            assert(after2.spec_bytes() =~= bytes.subrange(end, bytes.len() as int));
            assert(inside.spec_bytes() =~= bytes.subrange(start, end));
            lemma_chars_of_bytes(inside);
        }
        let gap_text = html_escape(gap);
        buf.push_str(gap_text.as_str());
        push_span(&mut buf, range, inside, rainbow);
        proof {
            assert(buf@ =~= STYLE@ + "<pre><code>"@ + rendered_ranges(
                bytes,
                ranges@,
                rainbow,
                i + 1,
            ));
        }
        prev = range.end;
        rest = after2;
        i = i + 1;
    }
    proof {
        lemma_chars_of_bytes(rest);
    }
    let tail = html_escape(rest);
    buf.push_str(tail.as_str());
    buf.push_str("</code></pre>");
    assert(buf@ =~= rendered(bytes, ranges@, rainbow));
    buf
}

} // verus!
