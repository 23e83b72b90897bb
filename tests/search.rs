use border_paths::graph::{breadth_first_search, create_graph, BorderCountryRow};

fn row(a: &str, b: &str) -> BorderCountryRow {
    BorderCountryRow {
        country_code: a.to_string(),
        country_name: format!("{} name", a),
        country_border_code: b.to_string(),
        country_border_name: format!("{} name", b),
    }
}

fn rows(pairs: &[(&str, &str)]) -> Vec<BorderCountryRow> {
    pairs.iter().map(|(a, b)| row(a, b)).collect()
}

fn strings(v: &[&str]) -> Vec<String> {
    v.iter().map(|s| s.to_string()).collect()
}

fn americas() -> Vec<BorderCountryRow> {
    rows(&[
        ("CA", "US"),
        ("US", "MX"),
        ("MX", "GT"),
        ("MX", "BZ"),
        ("GT", "BZ"),
        ("GT", "SV"),
        ("GT", "HN"),
        ("HN", "SV"),
        ("HN", "NI"),
        ("NI", "CR"),
        ("CR", "PA"),
        ("PA", "CO"),
        ("CO", "VE"),
        ("CO", "BR"),
        ("CO", "EC"),
        ("CO", "PE"),
        ("EC", "PE"),
        ("PE", "BO"),
        ("PE", "CL"),
        ("PE", "BR"),
        ("BO", "AR"),
        ("CL", "AR"),
        ("BR", "AR"),
    ])
}

#[test]
fn canada_to_argentina() {
    let g = create_graph(&americas());
    let p = breadth_first_search(&g, "CA", "AR");
    assert_eq!(
        p,
        Some(strings(&["CA", "US", "MX", "GT", "HN", "NI", "CR", "PA", "CO", "BR", "AR"]))
    );
}

#[test]
fn path_is_reversible_in_length() {
    let g = create_graph(&americas());
    let there = breadth_first_search(&g, "CA", "AR").unwrap();
    let back = breadth_first_search(&g, "AR", "CA").unwrap();
    assert_eq!(there.len(), back.len());
    assert_eq!(back.first().map(|s| s.as_str()), Some("AR"));
    assert_eq!(back.last().map(|s| s.as_str()), Some("CA"));
}

#[test]
fn direct_neighbours() {
    let g = create_graph(&americas());
    assert_eq!(breadth_first_search(&g, "US", "MX"), Some(strings(&["US", "MX"])));
    assert_eq!(breadth_first_search(&g, "MX", "US"), Some(strings(&["MX", "US"])));
}

#[test]
fn shortcut_is_taken() {
    let g = create_graph(&rows(&[("A", "B"), ("B", "C"), ("C", "D"), ("A", "D")]));
    assert_eq!(breadth_first_search(&g, "A", "D"), Some(strings(&["A", "D"])));
    assert_eq!(breadth_first_search(&g, "A", "C").map(|p| p.len()), Some(3));
}

#[test]
fn first_listed_neighbour_wins_a_tie() {
    let g = create_graph(&rows(&[("A", "B"), ("A", "C"), ("B", "D"), ("C", "D")]));
    assert_eq!(breadth_first_search(&g, "A", "D"), Some(strings(&["A", "B", "D"])));
}

#[test]
fn same_country_is_its_own_path() {
    let g = create_graph(&americas());
    assert_eq!(breadth_first_search(&g, "MX", "MX"), Some(strings(&["MX"])));
}

#[test]
fn same_country_absent_from_graph() {
    let g = create_graph(&americas());
    assert_eq!(breadth_first_search(&g, "FR", "FR"), Some(strings(&["FR"])));
}

#[test]
fn disconnected_components_give_none() {
    let g = create_graph(&rows(&[("FR", "ES"), ("ES", "PT"), ("CA", "US")]));
    assert_eq!(breadth_first_search(&g, "PT", "CA"), None);
    assert_eq!(breadth_first_search(&g, "US", "FR"), None);
}

#[test]
fn unknown_start_gives_none() {
    let g = create_graph(&americas());
    assert_eq!(breadth_first_search(&g, "FR", "AR"), None);
}

#[test]
fn unknown_end_gives_none() {
    let g = create_graph(&americas());
    assert_eq!(breadth_first_search(&g, "CA", "FR"), None);
}

#[test]
fn empty_table_has_no_paths() {
    let g = create_graph(&Vec::new());
    assert_eq!(breadth_first_search(&g, "CA", "US"), None);
    assert_eq!(g.neighbours("CA"), None);
}

#[test]
fn neighbours_in_both_directions() {
    let g = create_graph(&americas());
    assert_eq!(g.neighbours("CA"), Some(strings(&["US"])));
    assert_eq!(g.neighbours("US"), Some(strings(&["CA", "MX"])));
    assert_eq!(g.neighbours("MX"), Some(strings(&["US", "GT", "BZ"])));
    assert_eq!(g.neighbours("FR"), None);
}

#[test]
fn repeated_rows_repeat_neighbours() {
    let g = create_graph(&rows(&[("A", "B"), ("B", "A")]));
    assert_eq!(g.neighbours("A"), Some(strings(&["B", "B"])));
    assert_eq!(g.neighbours("B"), Some(strings(&["A", "A"])));
}

#[test]
fn self_border_row() {
    let g = create_graph(&rows(&[("A", "A"), ("A", "B")]));
    assert_eq!(g.neighbours("A"), Some(strings(&["A", "A", "B"])));
    assert_eq!(breadth_first_search(&g, "A", "B"), Some(strings(&["A", "B"])));
}
