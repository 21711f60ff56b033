use thyme::groups::{check_set_rend_group_top, group_members, sort_render_groups, RendGroup, RendGroupDef, RenderGroups};

fn def(index: u16, id: &str, always_top: bool) -> RendGroupDef<u32> {
    RendGroupDef { rect: index as u32, id: id.to_string(), group: RendGroup::new(index), start: 0, num: 0, always_top }
}

#[test]
fn render_groups_are_ordered_for_drawing() {
    let defs = vec![def(0, "root", false), def(1, "tooltip", true), def(2, "window", false), def(3, "popup", false)];
    let sorted = sort_render_groups(defs, RendGroup::new(2));
    let ids: Vec<&str> = sorted.iter().map(|d| d.id.as_str()).collect();
    assert_eq!(ids, vec!["tooltip", "window", "root", "popup"]);
}

#[test]
fn sorting_keeps_every_group() {
    let defs = vec![def(0, "a", true), def(1, "b", true), def(2, "c", false)];
    let sorted = sort_render_groups(defs, RendGroup::new(0));
    let ids: Vec<&str> = sorted.iter().map(|d| d.id.as_str()).collect();
    assert_eq!(ids, vec!["a", "b", "c"]);
}

#[test]
fn a_pending_group_comes_on_top() {
    let defs = vec![def(0, "root", false), def(1, "window", false)];
    let (top, pending) = check_set_rend_group_top(Some("window".to_string()), RendGroup::new(0), &defs);
    assert_eq!(top, RendGroup::new(1));
    assert_eq!(pending, None);
    let (top, pending) = check_set_rend_group_top(Some("missing".to_string()), RendGroup::new(0), &defs);
    assert_eq!(top, RendGroup::new(0));
    assert_eq!(pending.as_deref(), Some("missing"));
    let (top, pending) = check_set_rend_group_top(None, RendGroup::new(1), &defs);
    assert_eq!(top, RendGroup::new(1));
    assert_eq!(pending, None);
}

#[test]
fn group_members_are_found_from_the_start() {
    let g0 = RendGroup::new(0);
    let g1 = RendGroup::new(1);
    let widgets = vec![g0, g1, g0, g1, g1, g0];
    let d = RendGroupDef { rect: 0u32, id: "w".to_string(), group: g1, start: 1, num: 1, always_top: false };
    assert_eq!(group_members(&widgets, &d), vec![1, 3]);
    let d0 = RendGroupDef { rect: 0u32, id: "root".to_string(), group: g0, start: 0, num: 5, always_top: false };
    assert_eq!(group_members(&widgets, &d0), vec![0, 2, 5]);
}

#[test]
fn widgets_join_the_current_group() {
    let mut groups = RenderGroups::new(100u32);
    assert_eq!(groups.cur_render_group(), RendGroup::new(0));
    assert_eq!(groups.push_widget(), RendGroup::new(0));
    groups.next_render_group(50, "popup".to_string(), true, 1);
    assert_eq!(groups.cur_render_group(), RendGroup::new(1));
    assert_eq!(groups.push_widget(), RendGroup::new(1));
    assert_eq!(groups.push_widget(), RendGroup::new(1));
    groups.rebound_cur_render_group(60);
    groups.prev_render_group(RendGroup::new(0));
    assert_eq!(groups.push_widget(), RendGroup::new(0));
    let defs = groups.into_defs();
    assert_eq!(defs.len(), 2);
    assert_eq!(defs[0].num, 2);
    assert_eq!(defs[1].num, 2);
    assert_eq!(defs[1].rect, 60);
    assert_eq!(defs[1].start, 1);
    assert!(defs[1].always_top);
    assert_eq!(defs[1].id, "popup");
}
