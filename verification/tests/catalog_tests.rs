//! Tests for the template-catalog decisions: startup selection and the
//! writes that change which template is the default.

use tui_tiling::catalog::{is_template_default, select_startup_template, set_default_template};
use tui_tiling::layout::TilingManager;

fn entries(list: &[(&str, bool)]) -> Vec<(String, bool)> {
    list.iter().map(|(n, d)| (n.to_string(), *d)).collect()
}

#[test]
fn default_flag_is_read_back() {
    let mut tm = TilingManager::new();
    assert!(!is_template_default(&tm));
    tm.is_default = true;
    assert!(is_template_default(&tm));
}

#[test]
fn startup_selection_takes_first_default_in_listing_order() {
    let list = entries(&[("a.cfg", false), ("b.cfg", true), ("c.cfg", true)]);
    assert_eq!(select_startup_template(&list), Some(1));
    let none = entries(&[("a.cfg", false), ("b.cfg", false)]);
    assert_eq!(select_startup_template(&none), None);
    assert_eq!(select_startup_template(&Vec::new()), None);
}

#[test]
fn set_default_flips_target_on_and_others_off() {
    let list = entries(&[("a.cfg", false), ("b.cfg", true), ("c.cfg", false), ("d.cfg", true)]);
    let target = "c.cfg".to_string();
    let writes = set_default_template(&list, &target);
    // b and d lose their flag, c gains it; a needs no write.
    assert_eq!(writes, vec![(1, false), (2, true), (3, false)]);
}

#[test]
fn set_default_writes_nothing_when_already_exact() {
    let list = entries(&[("a.cfg", false), ("b.cfg", true)]);
    let target = "b.cfg".to_string();
    let writes = set_default_template(&list, &target);
    assert!(writes.is_empty());
}

#[test]
fn set_default_on_unknown_name_only_clears_flags() {
    let list = entries(&[("a.cfg", true), ("b.cfg", false)]);
    let target = "zz.cfg".to_string();
    let writes = set_default_template(&list, &target);
    assert_eq!(writes, vec![(0, false)]);
}
