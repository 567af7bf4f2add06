use bigpaw::groups::{
    fan_out_targets, members_from, members_json, members_of_json, Group, GroupMember, GroupsState,
    InfoOutcome,
};

const ME: &str = "me-fp";

fn member(fp: &str) -> GroupMember {
    GroupMember {
        fp: fp.to_string(),
        nick: format!("nick-{fp}"),
    }
}

fn group(id: &str, version: u64, member_fps: &[&str]) -> Group {
    Group {
        group_id: id.to_string(),
        name: "测试群".to_string(),
        creator_fp: "creator-fp".to_string(),
        version,
        members: member_fps.iter().map(|f| member(f)).collect(),
    }
}

#[test]
fn unknown_group_with_self_joins() {
    let mut s = GroupsState::default();
    let out = s.apply_info(group("g1", 1, &[ME, "b"]), ME);
    assert_eq!(out, InfoOutcome::Joined);
    assert!(s.get("g1").is_some());
}

#[test]
fn unknown_group_without_self_is_ignored() {
    let mut s = GroupsState::default();
    let out = s.apply_info(group("g1", 1, &["a", "b"]), ME);
    assert_eq!(out, InfoOutcome::Ignored);
    assert!(s.get("g1").is_none());
}

#[test]
fn higher_version_overwrites_lower_is_ignored() {
    let mut s = GroupsState::new(vec![group("g1", 2, &[ME, "b"])]);
    assert_eq!(
        s.apply_info(group("g1", 3, &[ME, "b", "c"]), ME),
        InfoOutcome::Updated
    );
    assert_eq!(s.get("g1").unwrap().members.len(), 3);
    assert_eq!(s.apply_info(group("g1", 2, &[ME]), ME), InfoOutcome::Ignored);
    assert_eq!(s.apply_info(group("g1", 3, &[ME]), ME), InfoOutcome::Ignored);
    assert_eq!(s.get("g1").unwrap().members.len(), 3);
}

#[test]
fn removed_from_higher_version_deletes_group() {
    let mut s = GroupsState::new(vec![group("g1", 1, &[ME, "b"])]);
    assert_eq!(
        s.apply_info(group("g1", 2, &["b", "c"]), ME),
        InfoOutcome::Removed
    );
    assert!(s.get("g1").is_none());
}

#[test]
fn fan_out_excludes_self() {
    let g = group("g1", 1, &[ME, "b", "c"]);
    assert_eq!(fan_out_targets(&g, ME), vec!["b".to_string(), "c".to_string()]);
}

#[test]
fn list_sorted_by_name_then_id() {
    let mut a = group("g2", 1, &[ME]);
    a.name = "苹果群".to_string();
    let mut b = group("g1", 1, &[ME]);
    b.name = "香蕉群".to_string();
    let s = GroupsState::new(vec![b, a]);
    let names: Vec<String> = s.list().into_iter().map(|g| g.name).collect();
    assert_eq!(names, vec!["苹果群".to_string(), "香蕉群".to_string()]);
}

#[test]
fn versions_in_either_order_lead_to_the_same_group() {
    let a = group("g1", 2, &[ME, "b"]);
    let b = group("g1", 5, &[ME, "c"]);
    let mut first = GroupsState::new(vec![]);
    first.apply_info(a.clone(), ME);
    first.apply_info(b.clone(), ME);
    let mut second = GroupsState::new(vec![]);
    second.apply_info(b.clone(), ME);
    second.apply_info(a, ME);
    assert_eq!(first.get("g1"), Some(&b));
    assert_eq!(second.get("g1"), Some(&b));
}

#[test]
fn local_groups_are_put_in_and_taken_out() {
    let g = group("g1", 1, &[ME, "b"]);
    assert!(g.has_member("b") && !g.has_member("x"));
    let mut s = GroupsState::new(vec![]);
    s.upsert_local(g.clone());
    s.upsert_local(group("g1", 2, &[ME]));
    assert_eq!(s.get("g1").unwrap().version, 2);
    assert_eq!(s.remove("g1").unwrap().version, 2);
    assert!(s.remove("g1").is_none());
    assert!(s.list().is_empty());
}

#[test]
fn groups_of_one_name_are_listed_by_id() {
    let s = GroupsState::new(vec![group("g2", 1, &[ME]), group("g1", 1, &[ME])]);
    let ids: Vec<String> = s.list().into_iter().map(|g| g.group_id).collect();
    assert_eq!(ids, vec!["g1".to_string(), "g2".to_string()]);
}

#[test]
fn members_are_kept_as_json() {
    let members = group("g1", 1, &[ME, "b\"", "猫"]).members;
    let text = members_json(&members);
    assert_eq!(text, "[[\"me-fp\",\"nick-me-fp\"],[\"b\\\"\",\"nick-b\\\"\"],[\"猫\",\"nick-猫\"]]");
    assert_eq!(members_of_json(&text), members);
    assert_eq!(members_of_json(" [ [\"a\" , \"b\"] ] ").len(), 1);
    assert!(members_of_json("{}").is_empty());
    assert!(members_of_json("[[\"a\"]]").is_empty());
    assert!(members_from(None).is_empty());
}
