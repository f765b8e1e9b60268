use lol_stats::damage::{parse_damage_stat, DamageStat};
use lol_stats::models::{AramChampionStats, ArenaChampionStats, Cell, ChampionSummary, RowError};
use lol_stats::pipeline::{aram_table, arena_table, collect_stats, ScrapeError, ScrapeErrorKind};
use html_editor::operation::Htmlifiable;
use html_editor::Node;
use lol_stats::markup::{all_in_list, first_in_list, Markup, Selector};
use lol_stats::page::{aram_rows, arena_rows, Region};
use lol_stats::resolve::{resolve, ResolveError};
use lol_stats::text::{inner_html, strip_html, trim_text};

fn name_cell(name: &str) -> Cell {
    Cell {
        attrs: Some(vec![
            ("class".to_string(), "champ".to_string()),
            ("data-sort-value".to_string(), name.to_string()),
        ]),
        markup: format!("<td data-sort-value=\"{}\">{}</td>", name, name),
    }
}

fn plain_cell(markup: &str) -> Cell {
    Cell { attrs: Some(vec![]), markup: markup.to_string() }
}

fn row(name: &str, dealt: &str, received: &str, other: &str) -> Vec<Cell> {
    vec![name_cell(name), plain_cell(dealt), plain_cell(received), plain_cell(other)]
}

fn header() -> Vec<Cell> {
    vec![
        Cell { attrs: Some(vec![]), markup: "<th>Champion</th>".to_string() },
        plain_cell("<th>Dealt</th>"),
        plain_cell("<th>Received</th>"),
        plain_cell("<th>Other</th>"),
    ]
}

fn markup_of(n: &Node) -> Markup {
    match n {
        Node::Element(e) => Markup::Element {
            name: e.name.clone(),
            attrs: e.attrs.clone(),
            children: e.children.iter().map(markup_of).collect(),
            html: n.html(),
        },
        _ => Markup::Other(n.html()),
    }
}

fn page(html: &str) -> Vec<Markup> {
    html_editor::parse(html).unwrap().iter().map(markup_of).collect()
}

fn summary(name: &str, id: i32, alias: &str) -> ChampionSummary {
    ChampionSummary { name: name.to_string(), id, alias: alias.to_string() }
}

fn offset(d: &DamageStat) -> Option<String> {
    match d {
        DamageStat::Baseline => None,
        DamageStat::Offset(t) => Some(t.clone()),
    }
}

#[test]
fn strip_html_keeps_visible_text() {
    assert_eq!(strip_html("<td><b>5%</b></td>".to_string()), "5%");
    assert_eq!(strip_html("a<i>b</i>c".to_string()), "abc");
    assert_eq!(strip_html("".to_string()), "");
}

#[test]
fn strip_html_is_not_nesting_aware() {
    assert_eq!(strip_html("<a title=\"x>y\">z</a>".to_string()), "y\"z");
}

#[test]
fn trim_text_removes_surrounding_whitespace() {
    assert_eq!(trim_text("  a b \n\t"), "a b");
    assert_eq!(trim_text("   "), "");
}

#[test]
fn empty_damage_cell_is_baseline() {
    assert!(matches!(parse_damage_stat("<td></td>".to_string()), DamageStat::Baseline));
    assert!(matches!(parse_damage_stat("<td> \n </td>".to_string()), DamageStat::Baseline));
    assert!(matches!(parse_damage_stat("<td><span></span></td>".to_string()), DamageStat::Baseline));
}

#[test]
fn negative_damage_cell_is_offset() {
    let d = parse_damage_stat("<td><span>-12%</span></td>".to_string());
    assert_eq!(offset(&d), Some("-12".to_string()));
}

#[test]
fn positive_damage_cell_is_offset() {
    let d = parse_damage_stat("<td>5%</td>".to_string());
    assert_eq!(offset(&d), Some("5".to_string()));
    let d = parse_damage_stat("<td> +2.5% </td>".to_string());
    assert_eq!(offset(&d), Some("+2.5".to_string()));
}

#[test]
fn inner_html_strips_outer_tag_only() {
    assert_eq!(inner_html("<td>some <b>bold</b> text</td>"), "some <b>bold</b> text");
    assert_eq!(inner_html("<td class=\"x\">\n  padded \n</td>"), "padded");
    assert_eq!(inner_html("no tags"), "");
    assert_eq!(inner_html("<td>"), "");
}

#[test]
fn aram_row_decodes_name() {
    let r = AramChampionStats::new(&row("Vel&#39;Koz", "<td>5%</td>", "<td></td>", "<td>x</td>")).unwrap();
    assert_eq!(r.name, "Vel'Koz");
    assert_eq!(r.id, 0);
    assert_eq!(offset(&r.damage_dealt), Some("5".to_string()));
    assert!(matches!(r.damage_received, DamageStat::Baseline));
    assert_eq!(r.other, "x");
}

#[test]
fn arena_row_decodes_name() {
    let r = ArenaChampionStats::new(&row("Nunu &amp; Willump", "<td></td>", "<td></td>", "<td> <i>y</i> </td>")).unwrap();
    assert_eq!(r.name, "Nunu & Willump");
    assert_eq!(r.id, 0);
    assert_eq!(r.other, "<i>y</i>");
}

#[test]
fn row_without_sort_value_is_rejected() {
    let mut cells = row("Ahri", "<td></td>", "<td></td>", "<td></td>");
    cells[0] = plain_cell("<td>Ahri</td>");
    assert_eq!(AramChampionStats::new(&cells).unwrap_err(), RowError::MissingSortValue);
    cells[0] = Cell { attrs: None, markup: "Ahri".to_string() };
    assert_eq!(ArenaChampionStats::new(&cells).unwrap_err(), RowError::MissingSortValue);
}

#[test]
fn short_row_is_rejected() {
    let cells = vec![name_cell("Ahri"), plain_cell("<td></td>")];
    assert_eq!(AramChampionStats::new(&cells).unwrap_err(), RowError::TooFewCells);
    assert_eq!(ArenaChampionStats::new(&cells).unwrap_err(), RowError::TooFewCells);
}

#[test]
fn resolve_skips_strawberry_duplicate() {
    let sums = vec![summary("X", 1, "X"), summary("X", 2, "Strawberry_X")];
    assert_eq!(resolve(&"X".to_string(), &sums), Ok((1, "X".to_string())));
    let sums = vec![summary("X", 2, "Strawberry_X"), summary("X", 1, "X")];
    assert_eq!(resolve(&"X".to_string(), &sums), Ok((1, "X".to_string())));
}

#[test]
fn resolve_takes_first_in_feed_order() {
    let sums = vec![summary("Y", 7, "Y1"), summary("Y", 8, "Y2")];
    assert_eq!(resolve(&"Y".to_string(), &sums), Ok((7, "Y1".to_string())));
}

#[test]
fn resolve_unknown_name_fails() {
    let sums = vec![summary("X", 1, "X")];
    assert_eq!(resolve(&"Z".to_string(), &sums), Err(ResolveError::Unresolved));
    let sums = vec![summary("X", 2, "Strawberry_X")];
    assert_eq!(resolve(&"X".to_string(), &sums), Err(ResolveError::Unresolved));
    assert_eq!(resolve(&"X".to_string(), &vec![]), Err(ResolveError::Unresolved));
}

#[test]
fn aram_table_end_to_end() {
    let sums = vec![summary("Ahri", 103, "Ahri"), summary("Vel'Koz", 161, "Velkoz")];
    let rows = vec![
        header(),
        row("Ahri", "<td>-12%</td>", "<td>5%</td>", "<td>a</td>"),
        row("Vel&#39;Koz", "<td></td>", "<td>-5%</td>", "<td>b</td>"),
    ];
    let t = aram_table(&sums, &rows).unwrap();
    assert_eq!(t.len(), 2);
    assert_eq!(t[0].0, "Ahri");
    assert_eq!(t[0].1.id, 103);
    assert_eq!(offset(&t[0].1.damage_dealt), Some("-12".to_string()));
    assert_eq!(offset(&t[0].1.damage_received), Some("5".to_string()));
    assert_eq!(t[1].0, "Velkoz");
    assert_eq!(t[1].1.id, 161);
    assert_eq!(t[1].1.name, "Vel'Koz");
    assert!(matches!(t[1].1.damage_dealt, DamageStat::Baseline));
    assert_eq!(offset(&t[1].1.damage_received), Some("-5".to_string()));
}

#[test]
fn aram_table_malformed_row_aborts() {
    let sums = vec![summary("Ahri", 103, "Ahri")];
    let mut bad = row("Ahri", "<td></td>", "<td></td>", "<td></td>");
    bad[0] = plain_cell("<td>Total</td>");
    let rows = vec![header(), row("Ahri", "<td></td>", "<td></td>", "<td></td>"), bad];
    assert_eq!(
        aram_table(&sums, &rows).unwrap_err(),
        ScrapeError { row: 2, kind: ScrapeErrorKind::Layout(RowError::MissingSortValue) }
    );
}

#[test]
fn aram_table_unresolved_row_aborts() {
    let sums = vec![summary("Ahri", 103, "Ahri")];
    let rows = vec![header(), row("Zed", "<td></td>", "<td></td>", "<td></td>")];
    assert_eq!(
        aram_table(&sums, &rows).unwrap_err(),
        ScrapeError { row: 1, kind: ScrapeErrorKind::Unresolved }
    );
}

#[test]
fn tables_of_header_only_or_nothing_are_empty() {
    let sums = vec![summary("Ahri", 103, "Ahri")];
    assert_eq!(aram_table(&sums, &vec![]).unwrap().len(), 0);
    assert_eq!(arena_table(&sums, &vec![header()]).unwrap().len(), 0);
}

#[test]
fn arena_table_resolves_rows() {
    let sums = vec![summary("Ahri", 103, "Ahri"), summary("Ahri", 9, "StrawberryAhri")];
    let rows = vec![header(), row("Ahri", "<td></td>", "<td></td>", "<td><b>z</b></td>")];
    let t = arena_table(&sums, &rows).unwrap();
    assert_eq!(t.len(), 1);
    assert_eq!(t[0].0, "Ahri");
    assert_eq!(t[0].1.id, 103);
    assert_eq!(t[0].1.other, "<b>z</b>");
}

#[test]
fn collect_stats_builds_both_pages() {
    let sums = vec![summary("Ahri", 103, "Ahri"), summary("Zed", 238, "Zed")];
    let aram = vec![header(), row("Ahri", "<td>1%</td>", "<td></td>", "<td></td>")];
    let arena = vec![header(), row("Zed", "<td></td>", "<td></td>", "<td></td>")];
    let s = collect_stats(&sums, &aram, &arena).unwrap();
    assert_eq!(s.aram.len(), 1);
    assert_eq!(s.arena.len(), 1);
    assert_eq!(s.arena[0].1.id, 238);
    let bad = vec![header(), row("Nobody", "<td></td>", "<td></td>", "<td></td>")];
    assert_eq!(
        collect_stats(&sums, &aram, &bad).unwrap_err(),
        ScrapeError { row: 1, kind: ScrapeErrorKind::Unresolved }
    );
}

const ARAM_PAGE: &str = "<html><body><div class=\"tabber wds-tabber\"><table class=\"article-table\"><tbody><tr><th>Champion</th><th>Dealt</th><th>Received</th><th>Other</th></tr><tr><td data-sort-value=\"Ahri\">Ahri</td><td>-12%</td><td>5%</td><td><b>x</b></td></tr><tr><td data-sort-value=\"Vel&#39;Koz\">Vel'Koz</td><td></td><td><span>-5%</span></td><td>y</td></tr></tbody></table></div></body></html>";

const ARENA_PAGE: &str = "<html><body><div class=\"tabber\"><table class=\"article-table sortable\"><tbody><tr><th>Champion</th><th>a</th><th>b</th><th>Notes</th></tr><tr><td data-sort-value=\"Zed\">Zed</td><td>1</td><td>2</td><td>n</td></tr></tbody></table></div><div class=\"tabber\"><table class=\"article-table sortable\"><tbody><tr><th>Champion</th><th>a</th><th>b</th><th>Notes</th></tr></tbody></table></div></body></html>";

#[test]
fn aram_page_end_to_end() {
    let rows = aram_rows(&page(ARAM_PAGE)).unwrap();
    assert_eq!(rows.len(), 3);
    assert_eq!(rows[1].len(), 4);
    let sums = vec![summary("Ahri", 103, "Ahri"), summary("Vel'Koz", 161, "Velkoz")];
    let t = aram_table(&sums, &rows).unwrap();
    assert_eq!(t.len(), 2);
    assert_eq!(t[0].0, "Ahri");
    assert_eq!(t[0].1.id, 103);
    assert_eq!(offset(&t[0].1.damage_dealt), Some("-12".to_string()));
    assert_eq!(offset(&t[0].1.damage_received), Some("5".to_string()));
    assert_eq!(t[0].1.other, "<b>x</b>");
    assert_eq!(t[1].0, "Velkoz");
    assert_eq!(t[1].1.id, 161);
    assert!(matches!(t[1].1.damage_dealt, DamageStat::Baseline));
    assert_eq!(offset(&t[1].1.damage_received), Some("-5".to_string()));
}

#[test]
fn aram_page_without_tabber_fails() {
    let err = aram_rows(&page("<html><body><table><tbody><tr></tr></tbody></table></body></html>")).unwrap_err();
    assert_eq!(err, Region::Tabber);
    let err = aram_rows(&page("<div class=\"tabber\"><p>none</p></div>")).unwrap_err();
    assert_eq!(err, Region::Table);
    let err = aram_rows(&page("<div class=\"tabber\"><table><tr></tr></table></div>")).unwrap_err();
    assert_eq!(err, Region::Body);
}

#[test]
fn arena_page_end_to_end() {
    let rows = arena_rows(&page(ARENA_PAGE)).unwrap();
    assert_eq!(rows.len(), 2);
    let sums = vec![summary("Zed", 238, "Zed")];
    let t = arena_table(&sums, &rows).unwrap();
    assert_eq!(t.len(), 1);
    assert_eq!(t[0].0, "Zed");
    assert_eq!(t[0].1.id, 238);
    assert_eq!(t[0].1.other, "n");
}

#[test]
fn arena_page_without_sortable_table_fails() {
    let err = arena_rows(&page("<div class=\"tabber\"><table class=\"article-table\"><tbody></tbody></table></div>")).unwrap_err();
    assert_eq!(err, Region::Body);
}

#[test]
fn later_row_wins_for_same_alias() {
    let sums = vec![summary("Ahri", 103, "Ahri")];
    let rows = vec![
        header(),
        row("Ahri", "<td>1%</td>", "<td></td>", "<td>first</td>"),
        row("Ahri", "<td>2%</td>", "<td></td>", "<td>second</td>"),
    ];
    let t = aram_table(&sums, &rows).unwrap();
    assert_eq!(t.len(), 1);
    assert_eq!(t[0].0, "Ahri");
    assert_eq!(offset(&t[0].1.damage_dealt), Some("2".to_string()));
    assert_eq!(t[0].1.other, "second");
}

#[test]
fn table_keys_are_in_alias_order() {
    let sums = vec![summary("Zed", 238, "Zed"), summary("Ahri", 103, "Ahri"), summary("Lux", 99, "Lux")];
    let rows = vec![
        header(),
        row("Zed", "<td></td>", "<td></td>", "<td></td>"),
        row("Ahri", "<td></td>", "<td></td>", "<td></td>"),
        row("Lux", "<td></td>", "<td></td>", "<td></td>"),
    ];
    let t = arena_table(&sums, &rows).unwrap();
    let keys: Vec<&str> = t.iter().map(|e| e.0.as_str()).collect();
    assert_eq!(keys, vec!["Ahri", "Lux", "Zed"]);
}

#[test]
fn selector_needs_every_class_token() {
    let doc = page("<div><table class=\"article-table\"><tbody><tr><td>a</td></tr></tbody></table><table class=\"wide article-table sortable\"><tbody><tr><td>b</td></tr></tbody></table></div>");
    let sel = Selector { tag: "table".to_string(), classes: vec!["article-table".to_string(), "sortable".to_string()] };
    let found = all_in_list(&doc, &sel);
    assert_eq!(found.len(), 1);
    let part = Selector { tag: "table".to_string(), classes: vec!["article".to_string()] };
    assert!(first_in_list(&doc, &part).is_none());
}

#[test]
fn all_matches_put_inner_matches_first() {
    let doc = page("<div id=\"outer\"><div id=\"inner\"></div></div>");
    let sel = Selector { tag: "div".to_string(), classes: vec![] };
    let found = all_in_list(&doc, &sel);
    assert_eq!(found.len(), 2);
    match found[0] {
        Markup::Element { attrs, .. } => assert_eq!(attrs[0].1, "inner"),
        Markup::Other(_) => panic!("expected an element"),
    }
    match first_in_list(&doc, &sel).unwrap() {
        Markup::Element { attrs, .. } => assert_eq!(attrs[0].1, "outer"),
        Markup::Other(_) => panic!("expected an element"),
    }
}
