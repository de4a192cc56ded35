use svg_replace::palette::{
    canvas_size, cell_origin, fills_of, grid_bottom, logo_scale, logo_top, sheet, sheet_of,
    without_prolog, PaletteError, CELL, CELLS, COLS, EXTRA, PAD, ROWS,
};

#[test]
fn the_sheet_holds_the_grid_and_the_footer() {
    assert_eq!((CELL, PAD, COLS, ROWS, EXTRA, CELLS), (100, 24, 4, 4, 96, 16));
    assert_eq!(canvas_size(), (448, 544));
    assert_eq!(grid_bottom(), 424);
}

#[test]
fn cells_fill_the_grid_row_by_row() {
    assert_eq!(cell_origin(0), (24, 24));
    assert_eq!(cell_origin(1), (124, 24));
    assert_eq!(cell_origin(3), (324, 24));
    assert_eq!(cell_origin(4), (24, 124));
    assert_eq!(cell_origin(10), (224, 224));
    assert_eq!(cell_origin(15), (324, 324));
    for i in 0..CELLS {
        let (x, y) = cell_origin(i);
        assert_eq!(x, PAD + (i as i32 % COLS) * CELL);
        assert_eq!(y, PAD + (i as i32 / COLS) * CELL);
    }
}

fn expected(markup: &str) -> String {
    markup
        .lines()
        .filter(|l| {
            let t = l.trim_start();
            !(t.starts_with("<?xml") || t.starts_with("<!DOCTYPE"))
        })
        .collect::<Vec<_>>()
        .join("\n")
}

#[test]
fn the_prolog_is_stripped() {
    let logo = "<?xml version=\"1.0\"?>\n<!DOCTYPE svg>\n<svg>\n  <text>a</text>\n</svg>\n";
    assert_eq!(without_prolog(logo), "<svg>\n  <text>a</text>\n</svg>");
}

#[test]
fn indented_prolog_lines_are_stripped_too() {
    assert_eq!(without_prolog("  \t<?xml?>\r\n <svg/>\r\n\u{a0}<!DOCTYPE x>"), " <svg/>");
}

#[test]
fn the_body_is_what_filtering_the_lines_gives() {
    for s in [
        "",
        "\n",
        "a",
        "a\n",
        "a\n\nb",
        "\n\na",
        "a\r\nb\r",
        "\r\n",
        "<?xml\n\n<svg/>",
        "<svg/>\n<?xml !>\n<!DOCTYPE>\n</svg>",
        "<?xm\n<!doctype\n <! DOCTYPE",
        "x<?xml",
        "<?xml\n<!DOCTYPE",
        "\n<?xml\n\n",
    ] {
        assert_eq!(without_prolog(s), expected(s), "{:?}", s);
    }
}

const PALETTE: &str = r##"{
  "base0F": "#ff6f00", "base00": "#161616", "base01": "#262626", "base02": "#393939",
  "base03": "#525252", "base04": "#dde1e6", "base05": "#f2f4f8", "base06": "#ffffff",
  "base07": "#08bdba", "base08": "#3ddbd9", "base09": "#78a9ff", "base0A": "#ee5396",
  "base0B": "#33b1ff", "base0C": "#ff7eb6", "base0D": "#42be65", "base0E": "#be95ff"
}"##;

const SMALL_LOGO: &str = "<?xml version=\"1.0\"?>\n<!DOCTYPE svg>\n<svg width=\"400\">\n  <text>Systems</text>\n</svg>\n";

fn sorted_fills() -> Vec<&'static str> {
    vec![
        "#161616", "#262626", "#393939", "#525252", "#dde1e6", "#f2f4f8", "#ffffff", "#08bdba",
        "#3ddbd9", "#78a9ff", "#ee5396", "#33b1ff", "#ff7eb6", "#42be65", "#be95ff", "#ff6f00",
    ]
}

fn expected_sheet(fills: &[&str], logo: &str) -> String {
    let (w, h) = (CELL * COLS + PAD * 2, CELL * ROWS + PAD * 2 + EXTRA);
    let grid_bot = PAD + ROWS * CELL;
    let gutter = (h - grid_bot) as f32;
    let scale = (gutter * 0.4) / 32.0;
    let logo_y = grid_bot as f32 - 15.0 + (gutter - 32.0 * scale) / 2.0;
    let mut svg = format!(
        "<svg xmlns=\"http://www.w3.org/2000/svg\" width=\"{w}\" height=\"{h}\" viewBox=\"0 0 {w} {h}\">\n<rect width=\"100%\" height=\"100%\" fill=\"#000\"/>\n"
    );
    for (i, fill) in fills.iter().enumerate() {
        let (x, y) = (PAD + (i as i32 % COLS) * CELL, PAD + (i as i32 / COLS) * CELL);
        svg.push_str(&format!(
            "<rect x=\"{x}\" y=\"{y}\" width=\"{CELL}\" height=\"{CELL}\" fill=\"{fill}\"/>\n"
        ));
    }
    svg.push_str(&format!(
        "<g transform=\"translate({PAD},{logo_y}) scale({scale})\">\n{logo}\n</g>\n</svg>"
    ));
    svg
}

#[test]
fn the_logo_is_scaled_into_the_footer() {
    assert_eq!(logo_scale(), 1_500_000);
    assert_eq!(logo_top(), 445_000_000);
}

#[test]
fn the_sheet_is_the_grid_and_the_footer() {
    let out = sheet(PALETTE, SMALL_LOGO).unwrap();
    assert_eq!(out, expected_sheet(&sorted_fills(), &expected(SMALL_LOGO)));
    assert!(out.starts_with("<svg xmlns=\"http://www.w3.org/2000/svg\" width=\"448\" height=\"544\" viewBox=\"0 0 448 544\">\n"));
    assert!(out.contains("<rect x=\"324\" y=\"324\" width=\"100\" height=\"100\" fill=\"#ff6f00\"/>\n"));
    assert!(out.ends_with("<g transform=\"translate(24,445) scale(1.5)\">\n<svg width=\"400\">\n  <text>Systems</text>\n</svg>\n</g>\n</svg>"));
}

#[test]
fn a_palette_that_is_no_object_is_rejected() {
    assert_eq!(sheet("[1, 2]", SMALL_LOGO), Err(PaletteError::Json));
    assert_eq!(sheet("{", SMALL_LOGO), Err(PaletteError::Json));
    assert_eq!(sheet("", SMALL_LOGO), Err(PaletteError::Json));
}

#[test]
fn a_palette_needs_sixteen_colours() {
    assert_eq!(sheet("{}", SMALL_LOGO), Err(PaletteError::Count));
    assert_eq!(sheet("{\"a\": \"#000\", \"b\": 3}", SMALL_LOGO), Err(PaletteError::Count));
    let fifteen: Vec<Option<String>> = vec![Some("#000".to_string()); 15];
    assert_eq!(fills_of(&fifteen), Err(PaletteError::Count));
    assert_eq!(sheet_of(&fifteen, SMALL_LOGO), Err(PaletteError::Count));
    let seventeen: Vec<Option<String>> = vec![None; 17];
    assert_eq!(fills_of(&seventeen), Err(PaletteError::Count));
}

#[test]
fn every_colour_is_a_string() {
    let bad = PALETTE.replace("\"#ee5396\"", "15");
    assert_eq!(sheet(&bad, SMALL_LOGO), Err(PaletteError::Colour));
    let mut values: Vec<Option<String>> = sorted_fills().iter().map(|s| Some(s.to_string())).collect();
    assert_eq!(fills_of(&values), Ok(sorted_fills().iter().map(|s| s.to_string()).collect::<Vec<String>>()));
    assert_eq!(sheet_of(&values, SMALL_LOGO), Ok(expected_sheet(&sorted_fills(), &expected(SMALL_LOGO))));
    values[15] = None;
    assert_eq!(fills_of(&values), Err(PaletteError::Colour));
    assert_eq!(sheet_of(&values, SMALL_LOGO), Err(PaletteError::Colour));
}

#[test]
fn palette_failures_have_messages() {
    assert_eq!(PaletteError::Count.message(), "need 16 colours");
    assert_eq!(PaletteError::Colour.message(), "bad hex");
    assert!(!PaletteError::Json.message().is_empty());
}
