use relvar::mrp::{compute_shortages, explode_bom, BomLine, Requirement, Stock};

fn line(p: &str, c: &str, q: i64) -> BomLine {
    BomLine { parent: p.to_string(), child: c.to_string(), qty_per: q }
}

fn req(p: &str, q: i64) -> Requirement {
    Requirement { part: p.to_string(), qty_required: q }
}

fn stock(p: &str, s: i64) -> Stock {
    Stock { part: p.to_string(), stock: s }
}

fn qty(rs: &[Requirement], part: &str) -> i64 {
    rs.iter().find(|r| r.part == part).unwrap().qty_required
}

#[test]
fn test_mrp_explosion() {
    let bom = vec![
        line("Car", "Engine", 1),
        line("Car", "Wheel", 4),
        line("Engine", "Piston", 4),
        line("Engine", "Block", 1),
        line("Wheel", "Tire", 1),
        line("Wheel", "Rim", 1),
    ];
    let demand = vec![req("Car", 10), req("Engine", 5)];
    let raw = explode_bom(&bom, &demand);
    assert_eq!(raw.len(), 4);
    assert_eq!(qty(&raw, "Piston"), 60);
    assert_eq!(qty(&raw, "Block"), 15);
    assert_eq!(qty(&raw, "Tire"), 40);
    assert_eq!(qty(&raw, "Rim"), 40);

    let inventory = vec![stock("Piston", 50), stock("Block", 20), stock("Tire", 40), stock("Rim", 10)];
    let shortages = compute_shortages(&raw, &inventory);
    assert_eq!(shortages.len(), 2);
    let short = |p: &str| shortages.iter().find(|s| s.part == p).unwrap().shortage;
    assert_eq!(short("Piston"), 10);
    assert_eq!(short("Rim"), 30);
}

#[test]
fn mrp_raw_demand_passes_through() {
    let raw = explode_bom(&vec![], &vec![req("Bolt", 7), req("Bolt", 3)]);
    assert_eq!(raw.len(), 1);
    assert_eq!(qty(&raw, "Bolt"), 10);
}

#[test]
fn mrp_empty_demand() {
    assert!(explode_bom(&vec![line("A", "B", 2)], &vec![]).is_empty());
}

#[test]
fn mrp_equal_child_needs_merge_as_one_tuple() {
    // Two assemblies each need 2 of C: the tuple (C, 2) arises twice and counts once.
    let bom = vec![line("A", "C", 2), line("B", "C", 2)];
    let raw = explode_bom(&bom, &vec![req("A", 1), req("B", 1)]);
    assert_eq!(qty(&raw, "C"), 2);
}

#[test]
fn mrp_parts_without_stock_are_not_short() {
    let shortages = compute_shortages(&vec![req("X", 5)], &vec![]);
    assert!(shortages.is_empty());
}
