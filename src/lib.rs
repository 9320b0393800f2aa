//! Parsing of terminal control sequences into typed elements, and rendering
//! of those elements as HTML with deduplicated CSS classes.

mod element;
mod html;
mod parser;

pub use element::{byte_strings, views, AnsiElement, AnsiError, ElementView};
pub use html::{
    class_name, converted, css_rule, css_text, decimal, digit_char, escape_char, escape_html,
    escaped, html_result_is, lemma_convert_twice_registers_once, lemma_escape_round_trip,
    lemma_escaped_has_no_markup, lemma_registered_stay_unique, next_colors,
    rgb_of, span_close, span_open, style_of, truecolor, unescape, ConverterView, HtmlConverter,
    HtmlError,
};
pub use parser::{
    agrees_rest, csi_at, csi_from, digits_value, element_at, esc_at, introducer_error,
    lemma_text_only_input, longest_valid_prefix, osc_at, osc_from, param_value, params_of,
    parse_ansi, parse_csi, parse_from, parse_osc, parsed, prepend, run_end, split, text_at,
    ByteClass, BEL, CSI_OPEN, ESC, OSC_OPEN, QUESTION, SEMICOLON,
};
