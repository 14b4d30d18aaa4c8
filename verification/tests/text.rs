use lib::math_text::render_plain_math;
use lib::text::{normalize_display_math, requirement_edge_label_text, split_lines};

#[test]
fn split_lines_handles_br_tags() {
    assert_eq!(split_lines("a<br/>b"), vec!["a", "b"]);
    assert_eq!(split_lines("a<br>b"), vec!["a", "b"]);
    assert_eq!(split_lines("a\\nb"), vec!["a", "b"]);
}

#[test]
fn split_lines_trims_whitespace() {
    assert_eq!(split_lines("  hello  \n  world  "), vec!["hello", "world"]);
}

#[test]
fn split_lines_keeps_empty_lines() {
    assert_eq!(split_lines(""), vec![""]);
    assert_eq!(split_lines("a\n\nb"), vec!["a", "", "b"]);
    assert_eq!(split_lines("a<br/>"), vec!["a", ""]);
}

#[test]
fn split_lines_renders_math_first() {
    assert_eq!(split_lines("a $$x^2$$<br>b"), vec!["a x²", "b"]);
}

#[test]
fn split_lines_trims_unicode_white_space() {
    assert_eq!(split_lines("\u{3000}a\u{a0}\tb\u{2003}"), vec!["a\u{a0}\tb"]);
}

#[test]
fn normalize_display_math_renders_each_pair() {
    assert_eq!(normalize_display_math("Area $$\\pi r^2$$ m"), "Area π r² m");
    assert_eq!(normalize_display_math("$$a_1$$ and $$b_2$$"), "a₁ and b₂");
    assert_eq!(normalize_display_math("no math"), "no math");
}

#[test]
fn normalize_display_math_keeps_an_unclosed_marker() {
    assert_eq!(normalize_display_math("cost $$5"), "cost $$5");
    assert_eq!(normalize_display_math("$$x$$ then $$y"), "x then $$y");
    assert_eq!(normalize_display_math("$$$"), "$$$");
}

#[test]
fn render_plain_math_scripts() {
    assert_eq!(render_plain_math("x^2"), "x²");
    assert_eq!(render_plain_math("a_{10}"), "a₁₀");
    assert_eq!(render_plain_math("x^{ab}"), "x^(ab)");
    assert_eq!(render_plain_math("x_i"), "x_(i)");
    assert_eq!(render_plain_math("x^{(n+1)}"), "x^((n+1))");
    assert_eq!(render_plain_math("x^{(1+2)}"), "x⁽¹⁺²⁾");
    assert_eq!(render_plain_math("y^{-1} z_{=}"), "y⁻¹ z₌");
    assert_eq!(render_plain_math("x^"), "x^()");
}

#[test]
fn render_plain_math_commands() {
    assert_eq!(render_plain_math("\\frac{a}{b}"), "(a)/(b)");
    assert_eq!(render_plain_math("\\sqrt{x}"), "√(x)");
    assert_eq!(render_plain_math("\\alpha + \\beta"), "α + β");
    assert_eq!(render_plain_math("\\text{speed}"), "speed");
    assert_eq!(render_plain_math("\\cos x"), "cos x");
    assert_eq!(render_plain_math("\\left( x \\right)"), "( x )");
    assert_eq!(render_plain_math("a \\cdot b"), "a b");
    assert_eq!(render_plain_math("\\foo"), "foo");
    assert_eq!(render_plain_math("a\\ b"), "a\\ b");
    assert_eq!(render_plain_math("\\frac{1}"), "(1)/()");
    assert_eq!(render_plain_math("\\sqrt x"), "x");
}

#[test]
fn render_plain_math_matrix() {
    assert_eq!(
        render_plain_math("\\begin{pmatrix} a & b \\\\ c & d \\end{pmatrix}"),
        "[ a b ; c d ]"
    );
    assert_eq!(render_plain_math("\\begin{cases} a \\end{cases}"), "a");
}

#[test]
fn render_plain_math_drops_braces_and_collapses_space() {
    assert_eq!(render_plain_math("  {a}   {b}  "), "a b");
    assert_eq!(render_plain_math("}{"), "");
}

#[test]
fn requirement_edge_label_text_strips_brackets() {
    assert_eq!(requirement_edge_label_text("  <<contains>> ", true), "<<contains>>");
    assert_eq!(requirement_edge_label_text("<< traces >>", false), "traces");
    assert_eq!(requirement_edge_label_text("satisfies", true), "<<satisfies>>");
    assert_eq!(requirement_edge_label_text(" <<>> ", true), "");
    assert_eq!(requirement_edge_label_text("", false), "");
}
