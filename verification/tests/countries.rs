use hoi25::countries::{countries_by_color, find_country, province_owners, same_color, CountryEntry};

fn c(name: &str, color: [u8; 4]) -> CountryEntry {
    CountryEntry { name: name.to_string(), color }
}

#[test]
fn colors_compare_by_value() {
    assert!(same_color(&[1, 2, 3, 255], &[1, 2, 3, 255]));
    assert!(!same_color(&[1, 2, 3, 255], &[1, 2, 3, 254]));
}

#[test]
fn last_country_of_a_colour_is_kept() {
    let cs = vec![c("A", [1, 0, 0, 255]), c("B", [2, 0, 0, 255]), c("C", [1, 0, 0, 255])];
    let kept = countries_by_color(&cs);
    let names: Vec<_> = kept.iter().map(|k| k.name.clone()).collect();
    assert_eq!(names, vec!["B".to_string(), "C".to_string()]);
    assert_eq!(kept[1].color, [1, 0, 0, 255]);
}

#[test]
fn provinces_go_to_the_country_of_their_colour() {
    let cs = vec![c("France", [0, 0, 255, 255]), c("Germany", [80, 80, 80, 255])];
    let hex = vec![[80, 80, 80, 255], [0, 0, 255, 255], [80, 80, 80, 255]];
    assert_eq!(province_owners(&hex, &cs), Ok(vec![1, 0, 1]));
}

#[test]
fn unknown_colour_is_reported() {
    let cs = vec![c("France", [0, 0, 255, 255])];
    let hex = vec![[0, 0, 255, 255], [9, 9, 9, 255], [8, 8, 8, 255]];
    assert_eq!(province_owners(&hex, &cs), Err(1));
}

#[test]
fn countries_found_by_name() {
    let cs = vec![c("France", [0, 0, 255, 255]), c("Germany", [80, 80, 80, 255])];
    assert_eq!(find_country(&cs, &"Germany".to_string()), Some(1));
    assert_eq!(find_country(&cs, &"France".to_string()), Some(0));
    assert_eq!(find_country(&cs, &"Italy".to_string()), None);
}
