use novaterm_core::{escape_html, AnsiElement, HtmlConverter, HtmlError};

fn csi(params: Vec<i32>) -> AnsiElement {
    AnsiElement::Csi { params, intermediates: vec![], ignore: false }
}

#[test]
fn test_rgb_color() {
    let mut converter = HtmlConverter::new("term".to_string());
    let element = AnsiElement::Csi {
        params: vec![38, 2, 255, 0, 0],
        intermediates: vec![],
        ignore: false,
    };

    assert_eq!(
        converter.convert(&element).unwrap(),
        r#"<span class="term-rgb-255-0-0">"#
    );

    assert_eq!(
        converter.get_css(),
        ".term-rgb-255-0-0 { color: rgb(255,0,0) }\n"
    );
}

#[test]
fn test_invalid_rgb() {
    let mut converter = HtmlConverter::new("term".to_string());
    let element = AnsiElement::Csi {
        params: vec![38, 2, 300, 0, 0],
        intermediates: vec![],
        ignore: false,
    };

    assert!(matches!(converter.convert(&element), Err(HtmlError::InvalidRgb)));
}

#[test]
fn test_xss_prevention() {
    let mut converter = HtmlConverter::new("term".to_string());
    let element = AnsiElement::Text("<script>alert('xss')</script>".to_string());

    assert_eq!(
        converter.convert(&element).unwrap(),
        "&lt;script&gt;alert(&#x27;xss&#x27;)&lt;/script&gt;"
    );
}

#[test]
fn test_mixed_formatting() {
    let mut converter = HtmlConverter::new("term".to_string());

    let red = AnsiElement::Csi {
        params: vec![38, 2, 255, 0, 0],
        intermediates: vec![],
        ignore: false,
    };
    let text = AnsiElement::Text("Hello".to_string());
    let reset = AnsiElement::Csi {
        params: vec![0],
        intermediates: vec![],
        ignore: false,
    };

    assert_eq!(
        converter.convert(&red).unwrap()
            + &converter.convert(&text).unwrap()
            + &converter.convert(&reset).unwrap(),
        r#"<span class="term-rgb-255-0-0">Hello</span>"#
    );
}

#[test]
fn test_full_html_conversion_flow() {
    let mut converter = HtmlConverter::new("term".to_string());

    let elements = vec![
        csi(vec![38, 2, 255, 0, 0]),
        AnsiElement::Text("Hello".to_string()),
        csi(vec![0]),
        csi(vec![38, 2, 0, 0, 255]),
        AnsiElement::Text("World".to_string()),
        csi(vec![0]),
    ];

    let html: String = elements
        .iter()
        .map(|elem| converter.convert(elem).unwrap())
        .collect();

    let css = converter.get_css();

    assert_eq!(
        html,
        r#"<span class="term-rgb-255-0-0">Hello</span><span class="term-rgb-0-0-255">World</span>"#
    );

    assert!(css.contains(".term-rgb-255-0-0 { color: rgb(255,0,0) }"));
    assert!(css.contains(".term-rgb-0-0-255 { color: rgb(0,0,255) }"));
}

#[test]
fn test_xss_prevention_with_formatting() {
    let mut converter = HtmlConverter::new("term".to_string());

    let elements = vec![
        csi(vec![38, 2, 255, 0, 0]),
        AnsiElement::Text("<script>alert('xss');</script>".to_string()),
        csi(vec![0]),
    ];

    let html: String = elements
        .iter()
        .map(|elem| converter.convert(elem).unwrap())
        .collect();

    assert_eq!(
        html,
        r#"<span class="term-rgb-255-0-0">&lt;script&gt;alert(&#x27;xss&#x27;);&lt;/script&gt;</span>"#
    );
}

#[test]
fn test_multiple_rgb_colors() {
    let mut converter = HtmlConverter::new("term".to_string());

    let colors = [(255, 0, 0), (255, 165, 0), (255, 255, 0), (0, 255, 0), (0, 0, 255), (128, 0, 128)];
    let mut elements = Vec::new();

    for (r, g, b) in colors {
        elements.push(csi(vec![38, 2, r as i32, g as i32, b as i32]));
        elements.push(AnsiElement::Text("â– ".to_string()));
        elements.push(csi(vec![0]));
    }

    let html: String = elements
        .iter()
        .map(|elem| converter.convert(elem).unwrap())
        .collect();

    for (r, g, b) in colors {
        assert!(html.contains(&format!(r#"<span class="term-rgb-{}-{}-{}">"#, r, g, b)));
    }

    let css = converter.get_css();
    for (r, g, b) in colors {
        assert!(css.contains(&format!(
            ".term-rgb-{}-{}-{} {{ color: rgb({},{},{}) }}",
            r, g, b, r, g, b
        )));
    }
}

#[test]
fn end_to_end_stylesheet_is_exact() {
    let mut converter = HtmlConverter::new("term".to_string());
    let elements = vec![
        csi(vec![38, 2, 255, 0, 0]),
        AnsiElement::Text("Hello".to_string()),
        csi(vec![0]),
        csi(vec![38, 2, 0, 0, 255]),
        AnsiElement::Text("World".to_string()),
        csi(vec![0]),
    ];
    let html: String = elements.iter().map(|e| converter.convert(e).unwrap()).collect();
    assert_eq!(
        html,
        r#"<span class="term-rgb-255-0-0">Hello</span><span class="term-rgb-0-0-255">World</span>"#
    );
    assert_eq!(
        converter.get_css(),
        ".term-rgb-255-0-0 { color: rgb(255,0,0) }\n.term-rgb-0-0-255 { color: rgb(0,0,255) }\n"
    );
}

#[test]
fn malicious_text_is_escaped() {
    let mut converter = HtmlConverter::new("term".to_string());
    let out = converter
        .convert(&AnsiElement::Text("<script>alert('x')</script>".to_string()))
        .unwrap();
    assert_eq!(out, "&lt;script&gt;alert(&#x27;x&#x27;)&lt;/script&gt;");
    assert!(!out.contains("<script>"));
    assert_eq!(converter.get_css(), "");
}

#[test]
fn same_color_twice_gives_one_rule() {
    let mut converter = HtmlConverter::new("p".to_string());
    let red = csi(vec![38, 2, 7, 8, 9]);
    assert_eq!(converter.convert(&red).unwrap(), r#"<span class="p-rgb-7-8-9">"#);
    let once = converter.get_css();
    assert_eq!(converter.convert(&red).unwrap(), r#"<span class="p-rgb-7-8-9">"#);
    assert_eq!(converter.get_css(), once);
    assert_eq!(once, ".p-rgb-7-8-9 { color: rgb(7,8,9) }\n");
}

#[test]
fn rgb_bounds_are_inclusive() {
    let mut converter = HtmlConverter::new("t".to_string());
    assert_eq!(
        converter.convert(&csi(vec![38, 2, 0, 255, 0])).unwrap(),
        r#"<span class="t-rgb-0-255-0">"#
    );
    assert_eq!(converter.get_css(), ".t-rgb-0-255-0 { color: rgb(0,255,0) }\n");
}

#[test]
fn rgb_out_of_range_registers_nothing() {
    let mut converter = HtmlConverter::new("t".to_string());
    for params in [
        vec![38, 2, -1, 0, 0],
        vec![38, 2, 0, 256, 0],
        vec![38, 2, 0, 0, 256],
        vec![38, 2, 0, 0, -1],
    ] {
        assert_eq!(converter.convert(&csi(params)), Err(HtmlError::InvalidRgb));
    }
    assert_eq!(converter.get_css(), "");
    assert_eq!(converter.convert(&AnsiElement::Text("ok".to_string())).unwrap(), "ok");
}

#[test]
fn other_elements_render_as_nothing() {
    let mut converter = HtmlConverter::new("t".to_string());
    assert_eq!(converter.convert(&csi(vec![1])).unwrap(), "");
    assert_eq!(converter.convert(&csi(vec![])).unwrap(), "");
    assert_eq!(converter.convert(&csi(vec![0, 0])).unwrap(), "");
    assert_eq!(converter.convert(&csi(vec![38, 2, 1, 2, 3, 4])).unwrap(), "");
    assert_eq!(converter.convert(&csi(vec![38, 5, 1, 2, 3])).unwrap(), "");
    assert_eq!(converter.convert(&AnsiElement::Osc(vec![b"0".to_vec()])).unwrap(), "");
    assert_eq!(converter.convert(&AnsiElement::Esc(b"c".to_vec())).unwrap(), "");
    assert_eq!(converter.get_css(), "");
}

#[test]
fn reset_closes_span_without_state() {
    let mut converter = HtmlConverter::new("t".to_string());
    assert_eq!(converter.convert(&csi(vec![0])).unwrap(), "</span>");
    assert_eq!(converter.convert(&csi(vec![0])).unwrap(), "</span>");
    assert_eq!(converter.get_css(), "");
}

#[test]
fn escaping_covers_each_special_character() {
    assert_eq!(escape_html("a&b<c>d\"e'f"), "a&amp;b&lt;c&gt;d&quot;e&#x27;f");
    assert_eq!(escape_html("&amp;"), "&amp;amp;");
    assert_eq!(escape_html(""), "");
    assert_eq!(escape_html("plain ■ text"), "plain ■ text");
}

#[test]
fn escaped_output_has_no_markup() {
    let out = escape_html("<<>>\"'&");
    assert!(!out.contains('<') && !out.contains('>') && !out.contains('"') && !out.contains('\''));
    assert_eq!(out, "&lt;&lt;&gt;&gt;&quot;&#x27;&amp;");
}

#[test]
fn stylesheet_keeps_registration_order() {
    let mut converter = HtmlConverter::new("x".to_string());
    converter.convert(&csi(vec![38, 2, 10, 20, 30])).unwrap();
    converter.convert(&csi(vec![38, 2, 100, 200, 5])).unwrap();
    converter.convert(&csi(vec![38, 2, 10, 20, 30])).unwrap();
    assert_eq!(
        converter.get_css(),
        ".x-rgb-10-20-30 { color: rgb(10,20,30) }\n.x-rgb-100-200-5 { color: rgb(100,200,5) }\n"
    );
}
