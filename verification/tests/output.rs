use sam_core::output::{
    bold, colored_risk, domain, edge_connector, edge_style, error_msg, format_number, header, hint,
    info, risk_color, source_label, success, warn, Table, BOLD, CYAN, GREEN, RED, RESET, YELLOW,
};

#[test]
fn success_line_is_green_bold_with_check() {
    assert_eq!(success("done"), "\x1b[32m\x1b[1m  ✓ done\x1b[0m");
}

#[test]
fn info_warn_error_hint_lines() {
    assert_eq!(info("x"), "\x1b[36m  ℹ x\x1b[0m");
    assert_eq!(warn("x"), "\x1b[33m  ⚠ x\x1b[0m");
    assert_eq!(error_msg("x"), "\x1b[31m\x1b[1m  ✗ x\x1b[0m");
    assert_eq!(hint("x"), "\x1b[2m  → x\x1b[0m");
}

#[test]
fn header_domain_bold() {
    assert_eq!(header("Plan"), "\n\x1b[1m\x1b[34mPlan\x1b[0m\n");
    assert_eq!(domain("apis/sales"), "\x1b[36mapis/sales\x1b[0m");
    assert_eq!(bold("b"), "\x1b[1mb\x1b[0m");
}

#[test]
fn risk_colors_are_case_insensitive() {
    assert_eq!(risk_color("critical"), RED);
    assert_eq!(risk_color("CRITICAL"), RED);
    assert_eq!(risk_color("High"), YELLOW);
    assert_eq!(risk_color("medium"), CYAN);
    assert_eq!(risk_color("low"), GREEN);
    assert_eq!(risk_color("unknown"), RESET);
    assert_eq!(risk_color(""), RESET);
}

#[test]
fn colored_risk_wraps_level() {
    assert_eq!(colored_risk("high"), format!("{YELLOW}{BOLD}high{RESET}"));
}

#[test]
fn format_number_small_values_unchanged() {
    assert_eq!(format_number(0), "0");
    assert_eq!(format_number(7), "7");
    assert_eq!(format_number(999), "999");
}

#[test]
fn format_number_groups_thousands() {
    assert_eq!(format_number(1000), "1,000");
    assert_eq!(format_number(1234567), "1,234,567");
    assert_eq!(format_number(100000), "100,000");
    assert_eq!(format_number(1001), "1,001");
    assert_eq!(format_number(usize::MAX), {
        let s = usize::MAX.to_string();
        let mut out = String::new();
        for (i, ch) in s.chars().rev().enumerate() {
            if i > 0 && i % 3 == 0 {
                out.push(',');
            }
            out.push(ch);
        }
        out.chars().rev().collect::<String>()
    });
}

#[test]
fn table_without_headers_renders_nothing() {
    let mut t = Table::new(vec![]);
    t.add_row(vec!["a".to_string()]);
    assert_eq!(t.render(), "");
}

#[test]
fn table_pads_columns_to_widest_cell() {
    let mut t = Table::new(vec!["Domain", "Risk"]);
    t.add_row(vec!["apis/orders".to_string(), "\x1b[31mhigh\x1b[0m".to_string()]);
    t.add_row(vec!["a".to_string(), "low".to_string()]);
    let expected = String::new()
        + "  \x1b[1mDomain     \x1b[0m  \x1b[1mRisk\x1b[0m\n"
        + "  ───────────  ────\n"
        + "  apis/orders  \x1b[31mhigh\x1b[0m\n"
        + "  a            low \n";
    assert_eq!(t.render(), expected);
}

#[test]
fn table_extra_cells_are_not_padded() {
    let mut t = Table::new(vec!["A"]);
    t.add_row(vec!["x".to_string(), "extra".to_string()]);
    assert_eq!(t.render(), "  \x1b[1mA\x1b[0m\n  ─\n  x  extra\n");
}

#[test]
fn table_short_row_keeps_header_width() {
    let mut t = Table::new(vec!["Name", "Files"]);
    t.add_row(vec!["ab".to_string()]);
    assert_eq!(
        t.render(),
        "  \x1b[1mName\x1b[0m  \x1b[1mFiles\x1b[0m\n  ────  ─────\n  ab  \n"
    );
}

#[test]
fn table_header_width_counts_bytes() {
    let mut t = Table::new(vec!["é"]);
    t.add_row(vec!["x".to_string()]);
    assert_eq!(t.render(), "  \x1b[1mé \x1b[0m\n  ──\n  x \n");
}

#[test]
fn source_labels_color_inferred_reasons() {
    assert_eq!(source_label("ai_inferred"), "\x1b[35mai_inferred\x1b[0m");
    assert_eq!(source_label("co_change"), "\x1b[33mco_change\x1b[0m");
    assert_eq!(source_label("profile"), "profile");
    assert_eq!(source_label("auto_include"), "auto_include");
}

#[test]
fn edge_connectors_and_styles() {
    assert_eq!(edge_connector(0, 3), "├── ");
    assert_eq!(edge_connector(2, 3), "└── ");
    assert_eq!(edge_connector(0, 1), "└── ");
    assert_eq!(edge_style(Some("import")), (GREEN, "import".to_string()));
    assert_eq!(edge_style(Some("cochange")), (YELLOW, "co-change".to_string()));
    assert_eq!(edge_style(Some("http")), (RESET, "http".to_string()));
    assert_eq!(edge_style(None), (RESET, "dep".to_string()));
}

#[test]
fn adding_a_row_adds_one_line_at_the_end() {
    let mut t = Table::new(vec!["Domain", "Files"]);
    t.add_row(vec!["a".to_string(), "1".to_string()]);
    let before = t.render();
    t.add_row(vec!["apis/sales".to_string(), "12".to_string()]);
    let after = t.render();
    assert_eq!(after.matches('\n').count(), before.matches('\n').count() + 1);
    let lines: Vec<&str> = after.lines().collect();
    assert!(lines[2].starts_with("  a"));
    assert_eq!(lines[3], "  apis/sales  12   ");
}
