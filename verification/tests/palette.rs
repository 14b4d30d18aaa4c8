use lib::palette::{
    mindmap_palette, pick_palette_color, pie_palette, treemap_depth_color, MindmapColors,
    ThemeColors,
};

fn theme() -> ThemeColors {
    ThemeColors {
        primary_color: "#p".to_string(),
        secondary_color: "#s".to_string(),
        tertiary_color: "#t".to_string(),
        primary_text_color: "#text".to_string(),
        primary_border_color: "#border".to_string(),
        git_colors: vec!["#g0".to_string(), "#g1".to_string()],
        git_branch_label_colors: vec!["#l0".to_string()],
        pie_colors: vec!["#a".to_string(), "#b".to_string()],
    }
}

fn strings(v: &[&str]) -> Vec<String> {
    v.iter().map(|s| s.to_string()).collect()
}

#[test]
fn pick_palette_color_cycles() {
    let values = strings(&["r", "g", "b"]);
    assert_eq!(pick_palette_color(&values, 0), "r");
    assert_eq!(pick_palette_color(&values, 4), "g");
    assert_eq!(pick_palette_color(&values, 3), pick_palette_color(&values, 0));
    assert_eq!(pick_palette_color(&Vec::new(), 7), "");
}

#[test]
fn mindmap_palette_falls_back_to_theme() {
    let config = MindmapColors {
        section_colors: vec![],
        section_label_colors: vec![],
        section_line_colors: vec![],
        root_fill: None,
        root_text: None,
    };
    let p = mindmap_palette(&theme(), &config);
    assert_eq!(p.section_fills, strings(&["#ECECFF"]));
    assert_eq!(p.section_labels, strings(&["#text"]));
    assert_eq!(p.section_lines, strings(&["#border"]));
    assert_eq!(p.root_fill, "#g0");
    assert_eq!(p.root_text, "#l0");
}

#[test]
fn mindmap_palette_uses_configured_colors() {
    let config = MindmapColors {
        section_colors: strings(&["#1", "#2"]),
        section_label_colors: strings(&["#3"]),
        section_line_colors: strings(&["#4", "#5"]),
        root_fill: Some("#6".to_string()),
        root_text: Some("#7".to_string()),
    };
    let p = mindmap_palette(&theme(), &config);
    assert_eq!(p.section_fills, strings(&["#1", "#2"]));
    assert_eq!(p.section_labels, strings(&["#3"]));
    assert_eq!(p.section_lines, strings(&["#4", "#5"]));
    assert_eq!(p.root_fill, "#6");
    assert_eq!(p.root_text, "#7");
}

#[test]
fn pie_palette_is_the_theme_s() {
    assert_eq!(pie_palette(&theme()), strings(&["#a", "#b"]));
}

#[test]
fn treemap_depth_colors_rotate() {
    let t = theme();
    assert_eq!(treemap_depth_color(0, &t), "#p");
    assert_eq!(treemap_depth_color(1, &t), "#s");
    assert_eq!(treemap_depth_color(2, &t), "#t");
    assert_eq!(treemap_depth_color(5, &t), "#t");
    assert_eq!(treemap_depth_color(6, &t), "#p");
}
