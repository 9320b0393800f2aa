//! Rendering of elements as HTML: escaped text, and spans whose CSS classes
//! stand for truecolor foregrounds, with one stylesheet rule per color.

use crate::element::{AnsiElement, ElementView};
use vstd::prelude::*;
use vstd::std_specs::iter::IteratorSpec;
use vstd::string::StringExecFns;

verus! {

/// Relies on `String::push`: appends one character at the end.
#[verifier::external_body]
fn push_char(out: &mut String, c: char)
    ensures
        final(out)@ == old(out)@.push(c),
{
    out.push(c)
}

/// What one character becomes in HTML text: one of five entities for the
/// characters that HTML gives a meaning, the character itself otherwise.
pub open spec fn escape_char(c: char) -> Seq<char> {
    if c == '&' {
        seq!['&', 'a', 'm', 'p', ';']
    } else if c == '<' {
        seq!['&', 'l', 't', ';']
    } else if c == '>' {
        seq!['&', 'g', 't', ';']
    } else if c == '"' {
        seq!['&', 'q', 'u', 'o', 't', ';']
    } else if c == '\'' {
        seq!['&', '#', 'x', '2', '7', ';']
    } else {
        seq![c]
    }
}

/// `s` with each character escaped, in order.
pub open spec fn escaped(s: Seq<char>) -> Seq<char>
    decreases s.len(),
{
    if s.len() == 0 {
        seq![]
    } else {
        escaped(s.drop_last()) + escape_char(s.last())
    }
}

/// Reads the five entities of [`escape_char`] back, left to right; any
/// other character stands for itself.
pub open spec fn unescape(t: Seq<char>) -> Seq<char>
    decreases t.len(),
{
    if t.len() == 0 {
        seq![]
    } else if t.len() >= 5 && t.take(5) == seq!['&', 'a', 'm', 'p', ';'] {
        seq!['&'] + unescape(t.skip(5))
    } else if t.len() >= 4 && t.take(4) == seq!['&', 'l', 't', ';'] {
        seq!['<'] + unescape(t.skip(4))
    } else if t.len() >= 4 && t.take(4) == seq!['&', 'g', 't', ';'] {
        seq!['>'] + unescape(t.skip(4))
    } else if t.len() >= 6 && t.take(6) == seq!['&', 'q', 'u', 'o', 't', ';'] {
        seq!['"'] + unescape(t.skip(6))
    } else if t.len() >= 6 && t.take(6) == seq!['&', '#', 'x', '2', '7', ';'] {
        seq!['\''] + unescape(t.skip(6))
    } else {
        seq![t[0]] + unescape(t.skip(1))
    }
}

proof fn lemma_escaped_front(s: Seq<char>)
    requires
        s.len() > 0,
    ensures
        escaped(s) == escape_char(s[0]) + escaped(s.skip(1)),
    decreases s.len(),
{
    if s.len() == 1 {
        assert(s.drop_last() =~= Seq::<char>::empty());
        assert(s.skip(1) =~= Seq::<char>::empty());
        assert(escaped(s.skip(1)) == Seq::<char>::empty());
        assert(escape_char(s[0]) + Seq::<char>::empty() =~= escape_char(s[0]));
    } else {
        lemma_escaped_front(s.drop_last());
        assert(s.drop_last().skip(1) =~= s.skip(1).drop_last());
        assert(s.skip(1).last() == s.last());
        assert(escaped(s.skip(1)) == escaped(s.skip(1).drop_last()) + escape_char(s.last()));
        assert(escaped(s) =~= escape_char(s[0]) + escaped(s.skip(1)));
    }
}

proof fn lemma_unescape_one(c: char, rest: Seq<char>)
    ensures
        unescape(escape_char(c) + rest) == seq![c] + unescape(rest),
{
    let t = escape_char(c) + rest;
    let n = escape_char(c).len() as int;
    assert(t.skip(n) =~= rest);
    assert(t.take(n) =~= escape_char(c));
    if c != '&' && c != '<' && c != '>' && c != '"' && c != '\'' {
        assert(t[0] == c);
        assert(t.len() >= 5 ==> t.take(5)[0] != '&');
        assert(t.len() >= 4 ==> t.take(4)[0] != '&');
        assert(t.len() >= 6 ==> t.take(6)[0] != '&');
    } else if c == '<' || c == '>' {
        assert(t.len() >= 5 ==> t.take(5)[1] != 'a');
    } else if c == '"' || c == '\'' {
        assert(t.take(5)[1] != 'a');
        assert(t.take(4)[1] != 'l' && t.take(4)[1] != 'g');
    }
    if c == '>' {
        assert(t.take(4)[1] != 'l');
    }
    if c == '\'' {
        assert(t.take(6)[1] != 'q');
    }
}

/// Escaping loses nothing and applies once: reading the entities back
/// gives the original text, so no entity is itself escaped again.
pub proof fn lemma_escape_round_trip(s: Seq<char>)
    ensures
        unescape(escaped(s)) == s,
    decreases s.len(),
{
    if s.len() == 0 {
        assert(escaped(s) =~= Seq::<char>::empty());
    } else {
        lemma_escaped_front(s);
        lemma_unescape_one(s[0], escaped(s.skip(1)));
        lemma_escape_round_trip(s.skip(1));
        assert(seq![s[0]] + s.skip(1) =~= s);
    }
}

/// Escaped text holds no `<`, `>`, `"` or `'`.
pub proof fn lemma_escaped_has_no_markup(s: Seq<char>)
    ensures
        forall|k: int|
            0 <= k < escaped(s).len() ==> {
                let c = #[trigger] escaped(s)[k];
                c != '<' && c != '>' && c != '"' && c != '\''
            },
    decreases s.len(),
{
    if s.len() > 0 {
        lemma_escaped_has_no_markup(s.drop_last());
        let e = escaped(s.drop_last());
        let x = escape_char(s.last());
        assert forall|k: int| 0 <= k < escaped(s).len() implies {
            let c = #[trigger] escaped(s)[k];
            c != '<' && c != '>' && c != '"' && c != '\''
        } by {
            if k >= e.len() {
                assert(escaped(s)[k] == x[k - e.len()]);
            } else {
                assert(escaped(s)[k] == e[k]);
            }
        }
    }
}

/// Escapes the characters that HTML gives a meaning, so that the text
/// shows as it is.
pub fn escape_html(text: &str) -> (r: String)
    ensures
        r@ == escaped(text@),
{
    let mut out = String::new();
    let mut it = text.chars();
    let ghost mut k: int = 0;
    proof {
        assert(text@.take(0) =~= Seq::<char>::empty());
        assert(text@.skip(0) =~= text@);
    }
    loop
        invariant
            0 <= k <= text@.len(),
            it.remaining() == text@.skip(k),
            out@ == escaped(text@.take(k)),
        ensures
            out@ == escaped(text@),
        decreases text@.len() - k,
    {
        match it.next() {
            None => {
                proof {
                    assert(text@.take(k) =~= text@);
                }
                break;
            },
            Some(c) => {
                proof {
                    assert(text@.take(k + 1).drop_last() =~= text@.take(k));
                    assert(it.remaining() =~= text@.skip(k + 1));
                }
                if c == '&' {
                    out.append("&amp;");
                    proof {
                        reveal_strlit("&amp;");
                        assert("&amp;"@ =~= escape_char(c));
                    }
                } else if c == '<' {
                    out.append("&lt;");
                    proof {
                        reveal_strlit("&lt;");
                        assert("&lt;"@ =~= escape_char(c));
                    }
                } else if c == '>' {
                    out.append("&gt;");
                    proof {
                        reveal_strlit("&gt;");
                        assert("&gt;"@ =~= escape_char(c));
                    }
                } else if c == '"' {
                    out.append("&quot;");
                    proof {
                        reveal_strlit("&quot;");
                        assert("&quot;"@ =~= escape_char(c));
                    }
                } else if c == '\'' {
                    out.append("&#x27;");
                    proof {
                        reveal_strlit("&#x27;");
                        assert("&#x27;"@ =~= escape_char(c));
                    }
                } else {
                    push_char(&mut out, c);
                    proof {
                        assert(out@ =~= escaped(text@.take(k)) + escape_char(c));
                    }
                }
                proof {
                    k = k + 1;
                }
            },
        }
    }
    out
}


/// Why an element could not be rendered.
#[derive(Debug, Clone, Copy, PartialEq, Eq, Structural)]
pub enum HtmlError {
    /// A truecolor component lies outside 0..=255.
    InvalidRgb,
    /// Building the output text failed. The text building here cannot fail,
    /// so no function of this library returns it.
    Format,
}

/// The character of a decimal digit.
pub open spec fn digit_char(d: int) -> char {
    ((d + 48) as u8) as char
}

/// `n` written in decimal, without leading zeros.
pub open spec fn decimal(n: nat) -> Seq<char>
    decreases n,
{
    if n < 10 {
        seq![digit_char(n as int)]
    } else {
        decimal(n / 10).push(digit_char((n % 10) as int))
    }
}

/// The class that renders color `c`: `{prefix}-rgb-{r}-{g}-{b}`.
pub open spec fn class_name(prefix: Seq<char>, c: (u8, u8, u8)) -> Seq<char> {
    prefix + seq!['-', 'r', 'g', 'b', '-'] + decimal(c.0 as nat) + seq!['-'] + decimal(
        c.1 as nat,
    ) + seq!['-'] + decimal(c.2 as nat)
}

/// The declaration of color `c`: `color: rgb({r},{g},{b})`.
pub open spec fn style_of(c: (u8, u8, u8)) -> Seq<char> {
    seq!['c', 'o', 'l', 'o', 'r', ':', ' ', 'r', 'g', 'b', '('] + decimal(c.0 as nat) + seq![','] + decimal(
        c.1 as nat,
    ) + seq![','] + decimal(c.2 as nat) + seq![')']
}

/// One line of the stylesheet: `.{class} { {declaration} }` and a newline.
pub open spec fn css_rule(prefix: Seq<char>, c: (u8, u8, u8)) -> Seq<char> {
    seq!['.'] + class_name(prefix, c) + seq![' ', '{', ' '] + style_of(c) + seq![' ', '}', '\n']
}

/// The stylesheet of the registered colors, one rule each, in order.
pub open spec fn css_text(prefix: Seq<char>, colors: Seq<(u8, u8, u8)>) -> Seq<char>
    decreases colors.len(),
{
    if colors.len() == 0 {
        seq![]
    } else {
        css_text(prefix, colors.drop_last()) + css_rule(prefix, colors.last())
    }
}

/// The opening tag of a span of class `class`.
pub open spec fn span_open(class: Seq<char>) -> Seq<char> {
    seq!['<', 's', 'p', 'a', 'n', ' ', 'c', 'l', 'a', 's', 's', '=', '"'] + class + seq!['"', '>']
}

/// The closing tag of a span.
pub open spec fn span_close() -> Seq<char> {
    seq!['<', '/', 's', 'p', 'a', 'n', '>']
}

/// Parameters of the truecolor foreground form `38;2;r;g;b`.
pub open spec fn truecolor(params: Seq<i32>) -> bool {
    params.len() == 5 && params[0] == 38 && params[1] == 2
}

/// The color that `params` selects: the truecolor form with each component
/// in 0..=255.
pub open spec fn rgb_of(params: Seq<i32>) -> Option<(u8, u8, u8)> {
    if truecolor(params) && 0 <= params[2] <= 255 && 0 <= params[3] <= 255 && 0 <= params[4]
        <= 255 {
        Some((params[2] as u8, params[3] as u8, params[4] as u8))
    } else {
        None
    }
}

/// The HTML of element `e` under class prefix `prefix`.
pub open spec fn converted(prefix: Seq<char>, e: ElementView) -> Result<Seq<char>, HtmlError> {
    match e {
        ElementView::Text(t) => Ok(escaped(t)),
        ElementView::Csi { params, .. } => if truecolor(params) {
            match rgb_of(params) {
                Some(c) => Ok(span_open(class_name(prefix, c))),
                None => Err(HtmlError::InvalidRgb),
            }
        } else if params == seq![0i32] {
            Ok(span_close())
        } else {
            Ok(seq![])
        },
        _ => Ok(seq![]),
    }
}

/// The registered colors after element `e`: its color is added unless it
/// is there already.
pub open spec fn next_colors(colors: Seq<(u8, u8, u8)>, e: ElementView) -> Seq<(u8, u8, u8)> {
    match e {
        ElementView::Csi { params, .. } => match rgb_of(params) {
            Some(c) => if colors.contains(c) {
                colors
            } else {
                colors.push(c)
            },
            None => colors,
        },
        _ => colors,
    }
}

/// `r` is the outcome that `m` describes.
pub open spec fn html_result_is(r: Result<String, HtmlError>, m: Result<Seq<char>, HtmlError>) -> bool {
    match (r, m) {
        (Ok(html), Ok(t)) => html@ == t,
        (Err(x), Err(y)) => x == y,
        _ => false,
    }
}

/// Converting an element a second time registers nothing more: a color is
/// registered once, and the stylesheet does not grow.
pub proof fn lemma_convert_twice_registers_once(
    prefix: Seq<char>,
    colors: Seq<(u8, u8, u8)>,
    e: ElementView,
)
    ensures
        next_colors(next_colors(colors, e), e) == next_colors(colors, e),
        css_text(prefix, next_colors(next_colors(colors, e), e)) == css_text(
            prefix,
            next_colors(colors, e),
        ),
        next_colors(colors, e).len() <= colors.len() + 1,
{
    if let ElementView::Csi { params, .. } = e {
        if let Some(c) = rgb_of(params) {
            if !colors.contains(c) {
                assert(colors.push(c)[colors.len() as int] == c);
            }
        }
    }
}

/// Registration keeps the colors distinct, so each has a single rule, and
/// the color of a truecolor element is registered after it.
pub proof fn lemma_registered_stay_unique(colors: Seq<(u8, u8, u8)>, e: ElementView)
    requires
        colors.no_duplicates(),
    ensures
        next_colors(colors, e).no_duplicates(),
        e matches ElementView::Csi { params, .. } ==> (rgb_of(params) matches Some(c)
            ==> next_colors(colors, e).contains(c)),
{
    if let ElementView::Csi { params, .. } = e {
        if let Some(c) = rgb_of(params) {
            if !colors.contains(c) {
                let n = colors.push(c);
                assert(n[colors.len() as int] == c);
                assert forall|i: int, j: int| 0 <= i < n.len() && 0 <= j < n.len() && i != j implies n[i]
                    != n[j] by {
                    if i < colors.len() && j < colors.len() {
                        assert(n[i] == colors[i] && n[j] == colors[j]);
                    } else if i < colors.len() {
                        assert(n[i] == colors[i]);
                    } else if j < colors.len() {
                        assert(n[j] == colors[j]);
                    }
                }
            }
        }
    }
}

/// The state of a converter: its class prefix and the colors registered so
/// far, in order of registration.
pub struct ConverterView {
    pub prefix: Seq<char>,
    pub colors: Seq<(u8, u8, u8)>,
}

/// Converts terminal elements to HTML, and collects one CSS rule for each
/// color it has rendered.
pub struct HtmlConverter {
    class_prefix: String,
    style_cache: Vec<(u8, u8, u8)>,
}

impl View for HtmlConverter {
    type V = ConverterView;

    closed spec fn view(&self) -> ConverterView {
        ConverterView { prefix: self.class_prefix@, colors: self.style_cache@ }
    }
}

fn digit(d: u8) -> (c: char)
    requires
        d < 10,
    ensures
        c == digit_char(d as int),
{
    (d + 48) as char
}

fn push_decimal(out: &mut String, n: u8)
    ensures
        final(out)@ == old(out)@ + decimal(n as nat),
{
    let ghost start = out@;
    let ghost m = n as nat;
    if n >= 100 {
        push_char(out, digit(n / 100));
        proof {
            assert(m / 10 >= 10);
            assert(m / 10 / 10 == m / 100);
            assert(decimal(m / 100) == seq![digit_char((n / 100) as int)]);
            assert(decimal(m / 10) == decimal(m / 100).push(digit_char((m / 10 % 10) as int)));
        }
    }
    if n >= 10 {
        push_char(out, digit((n / 10) % 10));
        proof {
            if m < 100 {
                assert(decimal(m / 10) == seq![digit_char((n / 10) as int)]);
            }
            assert(out@ =~= start + decimal(m / 10));
        }
    }
    push_char(out, digit(n % 10));
    proof {
        assert(out@ =~= start + decimal(m));
    }
}

fn push_class(out: &mut String, prefix: &String, c: (u8, u8, u8))
    ensures
        final(out)@ == old(out)@ + class_name(prefix@, c),
{
    let ghost start = out@;
    out.append(prefix.as_str());
    out.append("-rgb-");
    push_decimal(out, c.0);
    push_char(out, '-');
    push_decimal(out, c.1);
    push_char(out, '-');
    push_decimal(out, c.2);
    proof {
        reveal_strlit("-rgb-");
        assert(out@ =~= start + class_name(prefix@, c));
    }
}

fn push_style(out: &mut String, c: (u8, u8, u8))
    ensures
        final(out)@ == old(out)@ + style_of(c),
{
    let ghost start = out@;
    out.append("color: rgb(");
    push_decimal(out, c.0);
    push_char(out, ',');
    push_decimal(out, c.1);
    push_char(out, ',');
    push_decimal(out, c.2);
    push_char(out, ')');
    proof {
        reveal_strlit("color: rgb(");
        assert(out@ =~= start + style_of(c));
    }
}

impl HtmlConverter {
    /// A converter with no color registered, whose classes begin with
    /// `class_prefix`.
    pub fn new(class_prefix: String) -> (r: Self)
        ensures
            r@.prefix == class_prefix@,
            r@.colors == Seq::<(u8, u8, u8)>::empty(),
    {
        HtmlConverter { class_prefix, style_cache: Vec::new() }
    }

    /// The HTML of `element`. A truecolor foreground opens a span of the
    /// color's class and registers the color; the reset `0` closes a span;
    /// text is escaped; everything else renders as nothing.
    pub fn convert(&mut self, element: &AnsiElement) -> (r: Result<String, HtmlError>)
        ensures
            html_result_is(r, converted(old(self)@.prefix, element@)),
            final(self)@ == (ConverterView {
                prefix: old(self)@.prefix,
                colors: next_colors(old(self)@.colors, element@),
            }),
    {
        match element {
            AnsiElement::Text(text) => Ok(escape_html(text.as_str())),
            AnsiElement::Csi { params, .. } => self.convert_csi(params.as_slice()),
            _ => Ok(String::new()),
        }
    }

    /// The stylesheet: one rule for each registered color, in order of
    /// registration.
    pub fn get_css(&self) -> (r: String)
        ensures
            r@ == css_text(self@.prefix, self@.colors),
    {
        let mut css = String::new();
        let mut k: usize = 0;
        proof {
            assert(self.style_cache@.take(0) =~= Seq::<(u8, u8, u8)>::empty());
        }
        while k < self.style_cache.len()
            invariant
                k <= self.style_cache@.len(),
                css@ == css_text(self.class_prefix@, self.style_cache@.take(k as int)),
            decreases self.style_cache@.len() - k,
        {
            let c = self.style_cache[k];
            let ghost start = css@;
            push_char(&mut css, '.');
            push_class(&mut css, &self.class_prefix, c);
            css.append(" { ");
            push_style(&mut css, c);
            css.append(" }\n");
            proof {
                reveal_strlit(" { ");
                reveal_strlit(" }\n");
                assert(self.style_cache@.take(k + 1).drop_last() =~= self.style_cache@.take(
                    k as int,
                ));
                assert(css@ =~= start + css_rule(self.class_prefix@, c));
            }
            k = k + 1;
        }
        proof {
            assert(self.style_cache@.take(k as int) =~= self.style_cache@);
        }
        css
    }

    fn register(&mut self, c: (u8, u8, u8))
        ensures
            final(self).class_prefix == old(self).class_prefix,
            final(self).style_cache@ == (if old(self).style_cache@.contains(c) {
                old(self).style_cache@
            } else {
                old(self).style_cache@.push(c)
            }),
    {
        let mut k: usize = 0;
        while k < self.style_cache.len()
            invariant
                k <= self.style_cache@.len(),
                forall|m: int| 0 <= m < k ==> self.style_cache@[m] != c,
            decreases self.style_cache@.len() - k,
        {
            let d = self.style_cache[k];
            if d.0 == c.0 && d.1 == c.1 && d.2 == c.2 {
                proof {
                    assert(self.style_cache@[k as int] == c);
                }
                return;
            }
            k = k + 1;
        }
        self.style_cache.push(c);
    }

    fn convert_csi(&mut self, params: &[i32]) -> (r: Result<String, HtmlError>)
        ensures
            html_result_is(
                r,
                converted(
                    old(self)@.prefix,
                    ElementView::Csi { params: params@, intermediates: seq![], ignore: false },
                ),
            ),
            final(self)@ == (ConverterView {
                prefix: old(self)@.prefix,
                colors: next_colors(
                    old(self)@.colors,
                    ElementView::Csi { params: params@, intermediates: seq![], ignore: false },
                ),
            }),
    {
        if params.len() == 5 && params[0] == 38 && params[1] == 2 {
            let (r, g, b) = (params[2], params[3], params[4]);
            if r < 0 || r > 255 || g < 0 || g > 255 || b < 0 || b > 255 {
                return Err(HtmlError::InvalidRgb);
            }
            let c = (r as u8, g as u8, b as u8);
            self.register(c);
            let mut html = String::new();
            html.append("<span class=\"");
            push_class(&mut html, &self.class_prefix, c);
            html.append("\">");
            proof {
                reveal_strlit("<span class=\"");
                reveal_strlit("\">");
                assert(html@ =~= span_open(class_name(self.class_prefix@, c)));
            }
            Ok(html)
        } else if params.len() == 1 && params[0] == 0 {
            proof {
                assert(params@ =~= seq![0i32]);
                reveal_strlit("</span>");
            }
            let html = String::from_str("</span>");
            proof {
                assert(html@ =~= span_close());
            }
            Ok(html)
        } else {
            proof {
                if params@ == seq![0i32] {
                    assert(params@.len() == 1);
                }
            }
            Ok(String::new())
        }
    }
}

} // verus!
