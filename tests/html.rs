use html_highlight::color::{binding_hsl, rainbowify};
use html_highlight::escape::html_escape;
use html_highlight::render::{highlight_as_html, HighlightRange, Tag, STYLE};

fn range(start: usize, end: usize, category: Vec<Tag>, binding_hash: Option<u64>) -> HighlightRange {
    HighlightRange { start, end, category, binding_hash }
}

fn parse_hsl(s: &str) -> (u32, u32, u32) {
    assert!(s.starts_with("hsl(") && s.ends_with("%)"), "{}", s);
    let inner = &s[4..s.len() - 2];
    let parts: Vec<&str> = inner.split(",").collect();
    assert_eq!(parts.len(), 3, "{}", s);
    assert!(parts[1].ends_with('%'), "{}", s);
    let h: u32 = parts[0].parse().unwrap();
    let sat: u32 = parts[1][..parts[1].len() - 1].parse().unwrap();
    let l: u32 = parts[2].parse().unwrap();
    (h, sat, l)
}

fn body(html: &str) -> &str {
    assert!(html.starts_with(STYLE));
    &html[STYLE.len()..]
}

#[test]
fn escape_replaces_only_angle_brackets() {
    assert_eq!(html_escape("a<b>c"), "a&lt;b&gt;c");
    assert_eq!(html_escape("&\"'"), "&\"'");
    assert_eq!(html_escape("&lt;"), "&lt;");
    assert_eq!(html_escape(""), "");
    assert_eq!(html_escape("<<>>"), "&lt;&lt;&gt;&gt;");
    assert_eq!(html_escape("é<ü"), "é&lt;ü");
}

#[test]
fn empty_ranges_give_the_whole_text_escaped() {
    let html = highlight_as_html("a<b", &[], false);
    assert_eq!(body(&html), "<pre><code>a&lt;b</code></pre>");
    assert!(!html.contains("<span"));
}

#[test]
fn empty_text_and_no_ranges() {
    let html = highlight_as_html("", &[], true);
    assert_eq!(body(&html), "<pre><code></code></pre>");
}

#[test]
fn color_is_the_same_on_every_call() {
    for seed in [0u64, 1, 7, 42, u64::MAX] {
        assert_eq!(rainbowify(seed), rainbowify(seed));
        assert_eq!(binding_hsl(seed), binding_hsl(seed));
    }
}

#[test]
fn colors_of_different_seeds_mostly_differ() {
    let colors: Vec<String> = (0u64..200).map(rainbowify).collect();
    let mut distinct = colors.clone();
    distinct.sort();
    distinct.dedup();
    assert!(distinct.len() > 150, "{} distinct colors", distinct.len());
}

#[test]
fn color_matches_its_components() {
    for seed in [0u64, 3, 7, 1 << 40] {
        let (h, s, l) = binding_hsl(seed);
        assert_eq!(rainbowify(seed), format!("hsl({},{}%,{}%)", h, s, l));
    }
}

#[test]
fn colors_stay_within_bounds() {
    for _ in 0..10_000 {
        let seed: u64 = rand::random();
        let (h, s, l) = parse_hsl(&rainbowify(seed));
        assert!(h <= 360, "hue {}", h);
        assert!((42..=98).contains(&s), "saturation {}", s);
        assert!((40..=90).contains(&l), "lightness {}", l);
    }
}

#[test]
fn colors_are_dispersed() {
    let hues: Vec<f64> = (0u64..1000).map(|s| binding_hsl(s).0 as f64).collect();
    let mean = hues.iter().sum::<f64>() / hues.len() as f64;
    let var = hues.iter().map(|h| (h - mean) * (h - mean)).sum::<f64>() / hues.len() as f64;
    let cv = var.sqrt() / mean;
    // A uniform spread over [0, 360] has a coefficient of variation near 0.58.
    assert!(cv > 0.4 && cv < 0.8, "coefficient of variation {}", cv);
}

#[test]
fn category_segments_are_joined_by_spaces() {
    let html = highlight_as_html("unsafe {}", &[range(0, 6, vec![Tag::Keyword, Tag::Unsafe], None)], false);
    assert_eq!(body(&html), "<pre><code><span class=\"keyword unsafe\">unsafe</span> {}</code></pre>");
    let html = highlight_as_html("mut x", &[range(4, 5, vec![Tag::Variable, Tag::Mutable], None)], false);
    assert!(html.contains("<span class=\"variable mutable\">x</span>"));
}

#[test]
fn no_color_attributes_when_coloring_is_off() {
    let ranges = [
        range(0, 3, vec![Tag::Keyword], Some(11)),
        range(4, 5, vec![Tag::Variable], Some(7)),
    ];
    let html = highlight_as_html("let x = 1;", &ranges, false);
    assert!(!html.contains("data-binding-hash"));
    assert!(!body(&html).contains("style="));
    assert_eq!(
        body(&html),
        "<pre><code><span class=\"keyword\">let</span> <span class=\"variable\">x</span> = 1;</code></pre>"
    );
}

#[test]
fn colored_binding_scenario() {
    let html = highlight_as_html("let x = 1;", &[range(4, 5, vec![Tag::Variable], Some(7))], true);
    let expected = format!(
        "<pre><code>let <span class=\"variable\" data-binding-hash=\"7\" style=\"color: {};\">x</span> = 1;</code></pre>",
        rainbowify(7)
    );
    assert_eq!(body(&html), expected);
    assert_eq!(html.matches("<span").count(), 1);
    let (h, s, l) = binding_hsl(7);
    assert!(html.contains(&format!("style=\"color: hsl({},{}%,{}%);\"", h, s, l)));
}

#[test]
fn coloring_needs_a_binding() {
    let html = highlight_as_html("fn f", &[range(0, 2, vec![Tag::Keyword], None)], true);
    assert_eq!(body(&html), "<pre><code><span class=\"keyword\">fn</span> f</code></pre>");
}

#[test]
fn largest_binding_hash_is_written_in_full() {
    let html = highlight_as_html("x", &[range(0, 1, vec![Tag::Variable], Some(u64::MAX))], true);
    assert!(html.contains("data-binding-hash=\"18446744073709551615\""));
}

#[test]
fn zero_length_range_gives_an_empty_span() {
    let html = highlight_as_html("ab", &[range(1, 1, vec![Tag::Text], None)], false);
    assert_eq!(body(&html), "<pre><code>a<span class=\"text\"></span>b</code></pre>");
}

#[test]
fn adjacent_ranges_and_escaped_contents() {
    let text = "a<b>c";
    let ranges = [
        range(0, 1, vec![Tag::Variable], None),
        range(1, 2, vec![Tag::Text], None),
        range(2, 5, vec![Tag::Comment], None),
    ];
    let html = highlight_as_html(text, &ranges, false);
    assert_eq!(
        body(&html),
        "<pre><code><span class=\"variable\">a</span><span class=\"text\">&lt;</span><span class=\"comment\">b&gt;c</span></code></pre>"
    );
}

#[test]
fn multibyte_text_is_sliced_on_byte_offsets() {
    let text = "é = \"ü\";";
    // `é` takes bytes 0..2, `"ü"` takes bytes 5..9.
    let ranges = [
        range(0, 2, vec![Tag::Variable], None),
        range(5, 9, vec![Tag::StringLiteral], None),
    ];
    let html = highlight_as_html(text, &ranges, false);
    assert_eq!(
        body(&html),
        "<pre><code><span class=\"variable\">é</span> = <span class=\"string_literal\">\"ü\"</span>;</code></pre>"
    );
}

#[test]
fn every_tag_has_its_class() {
    let all = [
        (Tag::Lifetime, "lifetime"),
        (Tag::Comment, "comment"),
        (Tag::Struct, "struct"),
        (Tag::Enum, "enum"),
        (Tag::EnumVariant, "enum_variant"),
        (Tag::StringLiteral, "string_literal"),
        (Tag::Field, "field"),
        (Tag::Function, "function"),
        (Tag::Parameter, "parameter"),
        (Tag::Text, "text"),
        (Tag::Type, "type"),
        (Tag::BuiltinType, "builtin_type"),
        (Tag::TypeParam, "type_param"),
        (Tag::Attribute, "attribute"),
        (Tag::NumericLiteral, "numeric_literal"),
        (Tag::Macro, "macro"),
        (Tag::Module, "module"),
        (Tag::Variable, "variable"),
        (Tag::Mutable, "mutable"),
        (Tag::Keyword, "keyword"),
        (Tag::Unsafe, "unsafe"),
        (Tag::Control, "control"),
    ];
    for (tag, name) in all {
        assert_eq!(tag.class_name(), name);
    }
}

fn strip_and_unescape(html: &str) -> String {
    let mut out = String::new();
    let mut in_tag = false;
    for c in body(html).chars() {
        if in_tag {
            in_tag = c != '>';
        } else if c == '<' {
            in_tag = true;
        } else {
            out.push(c);
        }
    }
    out.replace("&lt;", "<").replace("&gt;", ">")
}

#[test]
fn stripping_markup_gives_back_the_text() {
    let text = "fn main() { if a < b && c > d { \"x\" } }";
    let ranges = [
        range(0, 2, vec![Tag::Keyword], None),
        range(3, 7, vec![Tag::Function], Some(3)),
        range(12, 14, vec![Tag::Keyword, Tag::Control], None),
        range(15, 16, vec![Tag::Variable], Some(9)),
        range(17, 18, vec![Tag::Text], None),
        range(32, 35, vec![Tag::StringLiteral], None),
    ];
    for rainbow in [false, true] {
        let html = highlight_as_html(text, &ranges, rainbow);
        assert_eq!(strip_and_unescape(&html), text);
    }
}

#[test]
fn ampersands_and_quotes_are_left_as_they_are() {
    let html = highlight_as_html("a && \"b\" &lt;", &[], false);
    assert_eq!(body(&html), "<pre><code>a && \"b\" &lt;</code></pre>");
}
