use task_entry_engine::tags::normalize;
use task_entry_engine::tags::parse_name_tags;
use task_entry_engine::tags::render;
use task_entry_engine::tags::trim_str;
use task_entry_engine::tags::canon_tag_check;

#[test]
fn normalize_scenario_mixed_case_and_duplicates() {
    let tags = normalize("  Work ## urgent #Work");
    assert_eq!(tags, vec!["work".to_string(), "urgent".to_string()]);
}

#[test]
fn normalize_empty_input_yields_empty_set() {
    assert_eq!(normalize(""), Vec::<String>::new());
    assert_eq!(normalize("   "), Vec::<String>::new());
}

#[test]
fn normalize_delimiter_only_input_yields_empty_set() {
    assert_eq!(normalize("###"), Vec::<String>::new());
    assert_eq!(normalize(" # # # "), Vec::<String>::new());
}

#[test]
fn normalize_keeps_first_seen_order() {
    let tags = normalize("beta#alpha#beta#gamma#ALPHA");
    assert_eq!(
        tags,
        vec!["beta".to_string(), "alpha".to_string(), "gamma".to_string()]
    );
}

#[test]
fn normalize_is_idempotent_on_concrete_input() {
    let once = normalize("  Work ## urgent #Work #home office ");
    let again = normalize(&render(&once));
    assert_eq!(once, again);
}

#[test]
fn normalize_produces_no_empty_or_duplicate_tags() {
    let tags = normalize("# a # A #  #b#B#a b#A B");
    for t in &tags {
        assert!(!t.trim().is_empty());
        assert!(canon_tag_check(t));
    }
    for i in 0..tags.len() {
        for j in 0..tags.len() {
            if i != j {
                assert_ne!(tags[i].to_lowercase(), tags[j].to_lowercase());
            }
        }
    }
}

#[test]
fn render_joins_with_space_hash() {
    let tags = vec!["work".to_string(), "urgent".to_string()];
    assert_eq!(render(&tags), "work #urgent");
    assert_eq!(render(&Vec::new()), "");
    assert_eq!(render(&vec!["solo".to_string()]), "solo");
}

#[test]
fn parse_name_tags_splits_combined_input() {
    let (name, tags) = parse_name_tags("  My Task #Work # urgent #work");
    assert_eq!(name, "My Task");
    assert_eq!(tags, vec!["work".to_string(), "urgent".to_string()]);
}

#[test]
fn parse_name_tags_without_tags() {
    let (name, tags) = parse_name_tags("Just a name  ");
    assert_eq!(name, "Just a name");
    assert_eq!(tags, Vec::<String>::new());
}

#[test]
fn trim_str_trims_both_ends() {
    assert_eq!(trim_str("  a b \t"), "a b");
    assert_eq!(trim_str(""), "");
    assert_eq!(trim_str(" \n "), "");
}

#[test]
fn canon_tag_check_accepts_exactly_canonical_tags() {
    assert!(canon_tag_check("work"));
    assert!(canon_tag_check("home office"));
    assert!(!canon_tag_check(""));
    assert!(!canon_tag_check(" work"));
    assert!(!canon_tag_check("work "));
    assert!(!canon_tag_check("Work"));
    assert!(!canon_tag_check("wo#rk"));
}
