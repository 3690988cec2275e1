use megastore::text::{lookup_key, trimmed};
use megastore::{Catalog, CatalogError, Field, LoadError, Product};

fn product(id: u64, name: &str, brand: &str, category: &str) -> Product {
    Product {
        id,
        name: name.to_string(),
        brand: brand.to_string(),
        category: category.to_string(),
        price_cents: None,
    }
}

fn ids(ps: &[Product]) -> Vec<u64> {
    ps.iter().map(|p| p.id).collect()
}

#[test]
fn mouse_scenario() {
    let mut c = Catalog::new();
    let a = c.add("Mouse", "Logitech", "Peripherals", None).unwrap();
    assert_eq!(a.id, 1);
    let b = c.add("Mouse", "Razer", "Peripherals", None).unwrap();
    assert_eq!(b.id, 2);
    assert_eq!(ids(&c.find_by_name("mouse")), vec![1, 2]);
    let razer = c.find_by_brand("razer");
    assert_eq!(razer.len(), 1);
    assert_eq!(razer[0], b);
    assert_eq!(ids(&c.find_by_category("PERIPHERALS")), vec![1, 2]);
}

#[test]
fn lookup_ignores_case() {
    let mut c = Catalog::new();
    let w = c.add("Widget", "Acme", "Tools", Some(1999)).unwrap();
    assert_eq!(c.find_by_name("WIDGET"), vec![w.clone()]);
    assert_eq!(c.find_by_name("widget"), vec![w.clone()]);
    assert_eq!(c.find_by_name("wIdGeT"), vec![w]);
}

#[test]
fn add_trims_and_is_found_by_name() {
    let mut c = Catalog::new();
    let p = c.add("  Lamp ", " Philips", "Lighting  ", Some(2500)).unwrap();
    assert_eq!(p.name, "Lamp");
    assert_eq!(p.brand, "Philips");
    assert_eq!(p.category, "Lighting");
    assert_eq!(p.price_cents, Some(2500));
    assert_eq!(p.id, 1);
    assert_eq!(c.next_id(), 2);
    assert_eq!(c.find_by_name("  Lamp "), vec![p.clone()]);
    assert_eq!(c.list_all(), vec![p]);
}

#[test]
fn add_rejects_empty_fields() {
    let mut c = Catalog::new();
    c.add("Keyboard", "Corsair", "Peripherals", None).unwrap();
    assert_eq!(c.add("", "Corsair", "Peripherals", None), Err(CatalogError::EmptyField));
    assert_eq!(c.add("Keyboard", "   ", "Peripherals", None), Err(CatalogError::EmptyField));
    assert_eq!(c.add("Keyboard", "Corsair", "\t\n", None), Err(CatalogError::EmptyField));
    assert_eq!(c.len(), 1);
    assert_eq!(c.next_id(), 2);
}

#[test]
fn add_refuses_when_ids_run_out() {
    let mut c = Catalog::from_products(vec![product(u64::MAX - 1, "A", "B", "C")]).unwrap();
    assert_eq!(c.next_id(), u64::MAX);
    assert_eq!(c.add("D", "E", "F", None), Err(CatalogError::Full));
    assert_eq!(c.len(), 1);
}

#[test]
fn find_without_match_is_empty() {
    let mut c = Catalog::new();
    assert!(c.find_by_name("anything").is_empty());
    c.add("Mouse", "Logitech", "Peripherals", None).unwrap();
    assert!(c.find_by_name("mous").is_empty());
    assert!(c.find_by_brand("razer").is_empty());
    assert!(c.find_by_category("").is_empty());
}

#[test]
fn remove_takes_every_product_of_that_name() {
    let mut c = Catalog::new();
    c.add("Mouse", "Logitech", "Peripherals", None).unwrap();
    c.add("Monitor", "Dell", "Displays", None).unwrap();
    c.add("MOUSE", "Razer", "Peripherals", None).unwrap();
    assert!(c.remove_by_name(" mouse "));
    assert!(c.find_by_name("mouse").is_empty());
    assert!(c.find_by_brand("razer").is_empty());
    assert_eq!(ids(&c.find_by_category("peripherals")), Vec::<u64>::new());
    assert_eq!(ids(&c.list_all()), vec![2]);
    assert_eq!(ids(&c.find_by_name("monitor")), vec![2]);
    assert_eq!(c.next_id(), 4);
    let p = c.add("Mouse", "Razer", "Peripherals", None).unwrap();
    assert_eq!(p.id, 4);
    assert_eq!(ids(&c.find_by_brand("RAZER")), vec![4]);
}

#[test]
fn remove_of_absent_name_changes_nothing() {
    let mut c = Catalog::new();
    c.add("Mouse", "Logitech", "Peripherals", None).unwrap();
    assert!(!c.remove_by_name("keyboard"));
    assert_eq!(ids(&c.list_all()), vec![1]);
    assert_eq!(ids(&c.find_by_name("mouse")), vec![1]);
}

#[test]
fn rebuilt_indices_match_incremental_ones() {
    let mut c = Catalog::new();
    c.add("Mouse", "Logitech", "Peripherals", None).unwrap();
    c.add("Desk", "Ikea", "Furniture", None).unwrap();
    c.add("mouse", "Razer", "peripherals", None).unwrap();
    let mut r = Catalog::from_products(c.list_all()).unwrap();
    r.rebuild_indices();
    for key in ["mouse", "desk", "chair"] {
        assert_eq!(r.find_by_name(key), c.find_by_name(key));
    }
    for key in ["logitech", "ikea", "razer"] {
        assert_eq!(r.find_by_brand(key), c.find_by_brand(key));
    }
    for key in ["peripherals", "furniture"] {
        assert_eq!(r.find_by(Field::Category, key), c.find_by(Field::Category, key));
    }
}

#[test]
fn reload_reproduces_products() {
    let mut c = Catalog::new();
    c.add("Mouse", "Logitech", "Peripherals", Some(4990)).unwrap();
    c.add("Desk", "Ikea", "Furniture", None).unwrap();
    c.remove_by_name("mouse");
    c.add("Lamp", "Philips", "Lighting", Some(1500)).unwrap();
    let listed = c.list_all();
    let again = Catalog::from_products(listed.clone()).unwrap();
    assert_eq!(again.list_all(), listed);
    assert_eq!(again.next_id(), 4);
    assert_eq!(ids(&again.find_by_name("lamp")), vec![3]);
}

#[test]
fn load_of_nothing_starts_at_one() {
    let c = Catalog::from_products(Vec::new()).unwrap();
    assert_eq!(c.len(), 0);
    assert_eq!(c.next_id(), 1);
}

#[test]
fn load_sets_next_id_past_largest() {
    let c = Catalog::from_products(vec![product(7, "A", "B", "C"), product(3, "D", "E", "F")]).unwrap();
    assert_eq!(c.next_id(), 8);
    assert_eq!(ids(&c.find_by_name("d")), vec![3]);
}

#[test]
fn load_rejects_bad_lists() {
    assert_eq!(
        Catalog::from_products(vec![product(1, "A", "", "C")]).map(|c| c.len()),
        Err(LoadError::EmptyField)
    );
    assert_eq!(
        Catalog::from_products(vec![product(1, "A", "B", "C"), product(1, "D", "E", "F")]).map(|c| c.len()),
        Err(LoadError::DuplicateId)
    );
    assert_eq!(
        Catalog::from_products(vec![product(u64::MAX, "A", "B", "C")]).map(|c| c.len()),
        Err(LoadError::IdOverflow)
    );
}

#[test]
fn text_helpers_trim_and_lowercase() {
    assert_eq!(trimmed("  Mouse \t"), "Mouse");
    assert_eq!(lookup_key("  WiDgeT "), "widget");
    assert_eq!(lookup_key(""), "");
}
