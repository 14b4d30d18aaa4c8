//! Colour choices: the palettes of mindmaps, pie charts and treemaps, taken
//! from the theme and the diagram's configuration.
use vstd::prelude::*;

verus! {

/// The colours of a theme that layouts pick from.
pub struct ThemeColors {
    pub primary_color: String,
    pub secondary_color: String,
    pub tertiary_color: String,
    pub primary_text_color: String,
    pub primary_border_color: String,
    pub git_colors: Vec<String>,
    pub git_branch_label_colors: Vec<String>,
    pub pie_colors: Vec<String>,
}

/// The colours a mindmap's configuration may set; an empty list or a
/// missing colour leaves the choice to the theme.
pub struct MindmapColors {
    pub section_colors: Vec<String>,
    pub section_label_colors: Vec<String>,
    pub section_line_colors: Vec<String>,
    pub root_fill: Option<String>,
    pub root_text: Option<String>,
}

/// The colours a mindmap is drawn with.
pub struct MindmapPalette {
    pub section_fills: Vec<String>,
    pub section_labels: Vec<String>,
    pub section_lines: Vec<String>,
    pub root_fill: String,
    pub root_text: String,
}

/// The default section fill of a mindmap.
pub open spec fn default_section_fill() -> Seq<char> {
    seq!['#', 'E', 'C', 'E', 'C', 'F', 'F']
}

/// A copy of `v`.
fn copy_strings(v: &Vec<String>) -> (r: Vec<String>)
    ensures
        r@ == v@,
{
    let mut r: Vec<String> = Vec::new();
    let mut i: usize = 0;
    while i < v.len()
        invariant
            i <= v.len(),
            r@ == v@.take(i as int),
        decreases v.len() - i,
    {
        r.push(v[i].clone());
        i += 1;
        proof {
            assert(r@ =~= v@.take(i as int));
        }
    }
    proof {
        assert(v@.take(v.len() as int) =~= v@);
    }
    r
}

/// `configured` where it lists any colour, else the one colour `fallback`.
pub open spec fn list_or(configured: Seq<String>, fallback: String) -> Seq<String> {
    if configured.len() == 0 {
        seq![fallback]
    } else {
        configured
    }
}

/// The palette of a mindmap: the configured section colours, else one
/// default fill, the theme's text colour and the theme's border colour;
/// the configured root colours, else the theme's first git colours.
pub fn mindmap_palette(theme: &ThemeColors, config: &MindmapColors) -> (p: MindmapPalette)
    requires
        config.root_fill is Some || theme.git_colors.len() > 0,
        config.root_text is Some || theme.git_branch_label_colors.len() > 0,
    ensures
        p.section_fills@.len() >= 1,
        config.section_colors.len() == 0 ==> p.section_fills@.len() == 1
            && p.section_fills@[0]@ == default_section_fill(),
        config.section_colors.len() > 0 ==> p.section_fills@ == config.section_colors@,
        p.section_labels@ == list_or(config.section_label_colors@, theme.primary_text_color),
        p.section_lines@ == list_or(config.section_line_colors@, theme.primary_border_color),
        p.root_fill == match config.root_fill {
            Some(c) => c,
            None => theme.git_colors@[0],
        },
        p.root_text == match config.root_text {
            Some(c) => c,
            None => theme.git_branch_label_colors@[0],
        },
{
    let section_fills = if config.section_colors.len() == 0 {
        let fill = "#ECECFF".to_owned();
        proof {
            reveal_strlit("#ECECFF");
        }
        let mut v: Vec<String> = Vec::new();
        v.push(fill);
        v
    } else {
        copy_strings(&config.section_colors)
    };
    let section_labels = if config.section_label_colors.len() == 0 {
        let mut v: Vec<String> = Vec::new();
        v.push(theme.primary_text_color.clone());
        proof {
            assert(v@ =~= seq![theme.primary_text_color]);
        }
        v
    } else {
        copy_strings(&config.section_label_colors)
    };
    let section_lines = if config.section_line_colors.len() == 0 {
        let mut v: Vec<String> = Vec::new();
        v.push(theme.primary_border_color.clone());
        proof {
            assert(v@ =~= seq![theme.primary_border_color]);
        }
        v
    } else {
        copy_strings(&config.section_line_colors)
    };
    let root_fill = match &config.root_fill {
        Some(c) => c.clone(),
        None => theme.git_colors[0].clone(),
    };
    let root_text = match &config.root_text {
        Some(c) => c.clone(),
        None => theme.git_branch_label_colors[0].clone(),
    };
    MindmapPalette { section_fills, section_labels, section_lines, root_fill, root_text }
}

/// Entry `idx` of the palette `values` taken round and round.
pub open spec fn cycled(values: Seq<String>, idx: int) -> String {
    values[idx % values.len() as int]
}

/// The colour for item `idx` of a cycling palette: the palette's colours in
/// turn, or the empty text for an empty palette.
pub fn pick_palette_color(values: &Vec<String>, idx: usize) -> (c: String)
    ensures
        values.len() == 0 ==> c@ == Seq::<char>::empty(),
        values.len() > 0 ==> c == cycled(values@, idx as int),
{
    if values.len() == 0 {
        return String::new();
    }
    let index = idx % values.len();
    values[index].clone()
}

/// The slice colours of a pie chart: the theme's pie colours.
pub fn pie_palette(theme: &ThemeColors) -> (colors: Vec<String>)
    ensures
        colors@ == theme.pie_colors@,
{
    copy_strings(&theme.pie_colors)
}

/// The fill of a treemap section at nesting depth `depth`: the theme's
/// primary, secondary and tertiary colours in turn.
pub fn treemap_depth_color(depth: usize, theme: &ThemeColors) -> (c: String)
    ensures
        c == (if depth % 3 == 0 {
            theme.primary_color
        } else if depth % 3 == 1 {
            theme.secondary_color
        } else {
            theme.tertiary_color
        }),
{
    match depth % 3 {
        0 => theme.primary_color.clone(),
        1 => theme.secondary_color.clone(),
        _ => theme.tertiary_color.clone(),
    }
}

/// Colours repeat with the palette's length: item `idx` and item
/// `idx + len` get the same colour, and the first `len` items get the
/// palette's colours in order.
pub proof fn lemma_palette_cycles(values: Seq<String>, idx: int)
    requires
        values.len() > 0,
        idx >= 0,
    ensures
        cycled(values, idx + values.len()) == cycled(values, idx),
        idx < values.len() ==> cycled(values, idx) == values[idx],
{
    let len = values.len() as int;
    assert((idx + len) % len == idx % len) by (nonlinear_arith)
        requires
            len > 0,
            idx >= 0,
    ;
    assert(idx < len ==> idx % len == idx) by (nonlinear_arith)
        requires
            len > 0,
            idx >= 0,
    ;
}

} // verus!
