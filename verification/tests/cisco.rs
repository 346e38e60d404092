use bgpsim::export::cisco::{bgp_remove_rm_item, bgp_rm_item};
use bgpsim::export::PrefixAddressor;
use bgpsim::route_map::{RouteMapBuilder, RouteMapDirection as RmDir};
use bgpsim::types::{AsId, Prefix};

fn get_ip() -> PrefixAddressor {
    PrefixAddressor::new(100 << 24, 8, 24).unwrap()
}

#[test]
fn rm_item_comm_deny() {
    let mut ip = get_ip();
    let rm = bgp_rm_item(
        &mut ip,
        AsId(1),
        "test",
        RmDir::Incoming,
        &RouteMapBuilder::new().deny().order(10).match_community(100).build(),
        None,
        20,
    )
    .unwrap();
    assert_eq!(
        rm,
        String::from(
            "!
ip community-list standard test-in-32778-cl permit 1:100
route-map test-in deny 32778
  match community test-in-32778-cl
exit
"
        )
    );
}

#[test]
fn remove_rm_item_comm_deny() {
    let rm = bgp_remove_rm_item(
        "test",
        RmDir::Incoming,
        &RouteMapBuilder::new().deny().order(10).match_community(100).build(),
        None,
        20,
    )
    .unwrap();
    assert_eq!(
        rm,
        String::from(
            "!
no ip community-list standard test-in-32778-cl
no route-map test-in deny 32778
"
        )
    );
}

#[test]
fn rm_item_comm_permit() {
    let mut ip = get_ip();
    let rm = bgp_rm_item(
        &mut ip,
        AsId(1),
        "test",
        RmDir::Incoming,
        &RouteMapBuilder::new()
            .allow()
            .order(10)
            .match_community(100)
            .set_community(200)
            .build(),
        None,
        20,
    )
    .unwrap();
    assert_eq!(
        rm,
        String::from(
            "!
ip community-list standard test-in-32778-cl permit 1:100
route-map test-in permit 32778
  match community test-in-32778-cl
  set community 1:200
  continue 32788
exit
"
        )
    );
}

#[test]
fn remove_rm_item_comm_permit() {
    let rm = bgp_remove_rm_item(
        "test",
        RmDir::Incoming,
        &RouteMapBuilder::new()
            .allow()
            .order(10)
            .match_community(100)
            .set_community(200)
            .build(),
        None,
        20,
    )
    .unwrap();
    assert_eq!(
        rm,
        String::from(
            "!
no ip community-list standard test-in-32778-cl
no route-map test-in permit 32778
"
        )
    );
}

#[test]
fn rm_item_comm_prefix_permit() {
    let mut ip = get_ip();
    let rm = bgp_rm_item(
        &mut ip,
        AsId(1),
        "test",
        RmDir::Incoming,
        &RouteMapBuilder::new()
            .allow()
            .order(10)
            .match_community(100)
            .match_prefix(Prefix::from(1))
            .match_prefix(Prefix::from(2))
            .set_community(200)
            .build(),
        None,
        20,
    )
    .unwrap();
    assert_eq!(
        rm,
        String::from(
            "!
ip prefix-list test-in-32778-pl seq 1 permit 100.0.0.0/24
ip prefix-list test-in-32778-pl seq 2 permit 100.0.1.0/24
ip community-list standard test-in-32778-cl permit 1:100
route-map test-in permit 32778
  match ip address test-in-32778-pl
  match community test-in-32778-cl
  set community 1:200
  continue 32788
exit
"
        )
    );
}

#[test]
fn remove_rm_item_comm_prefix_permit() {
    let rm = bgp_remove_rm_item(
        "test",
        RmDir::Incoming,
        &RouteMapBuilder::new()
            .allow()
            .order(10)
            .match_community(100)
            .match_prefix(Prefix::from(1))
            .match_prefix(Prefix::from(2))
            .set_community(200)
            .build(),
        None,
        20,
    )
    .unwrap();
    assert_eq!(
        rm,
        String::from(
            "!
no ip prefix-list test-in-32778-pl
no ip community-list standard test-in-32778-cl
no route-map test-in permit 32778
"
        )
    );
}

#[test]
fn rm_item_comm_prefix_permit_as_path() {
    let mut ip = get_ip();
    let rm = bgp_rm_item(
        &mut ip,
        AsId(1),
        "test",
        RmDir::Incoming,
        &RouteMapBuilder::new()
            .allow()
            .order(10)
            .match_community(100)
            .match_prefix(Prefix::from(1))
            .match_prefix(Prefix::from(2))
            .match_as_path_contains(AsId(500))
            .set_community(200)
            .build(),
        None,
        20,
    )
    .unwrap();
    assert_eq!(
        rm,
        String::from(
            "!
ip prefix-list test-in-32778-pl seq 1 permit 100.0.0.0/24
ip prefix-list test-in-32778-pl seq 2 permit 100.0.1.0/24
ip community-list standard test-in-32778-cl permit 1:100
ip as-path access-list test-in-32778-asl permit _500_
route-map test-in permit 32778
  match ip address test-in-32778-pl
  match community test-in-32778-cl
  match as-path test-in-32778-asl
  set community 1:200
  continue 32788
exit
"
        )
    );
}

#[test]
fn remove_rm_item_comm_prefix_permit_as_path() {
    let rm = bgp_remove_rm_item(
        "test",
        RmDir::Incoming,
        &RouteMapBuilder::new()
            .allow()
            .order(10)
            .match_community(100)
            .match_prefix(Prefix::from(1))
            .match_prefix(Prefix::from(2))
            .match_as_path_contains(AsId(500))
            .set_community(200)
            .build(),
        None,
        20,
    )
    .unwrap();
    assert_eq!(
        rm,
        String::from(
            "!
no ip prefix-list test-in-32778-pl
no ip community-list standard test-in-32778-cl
no ip as-path access-list test-in-32778-asl
no route-map test-in permit 32778
"
        )
    );
}

#[test]
fn rm_item_unset_comm() {
    let mut ip = get_ip();
    let rm = bgp_rm_item(
        &mut ip,
        AsId(1),
        "test",
        RmDir::Incoming,
        &RouteMapBuilder::new()
            .allow()
            .order(10)
            .match_community(100)
            .remove_community(100)
            .build(),
        None,
        20,
    )
    .unwrap();
    assert_eq!(
        rm,
        String::from(
            "!
ip community-list standard test-in-32778-cl permit 1:100
ip community-list standard test-in-32778-cl-rm permit 1:100
route-map test-in permit 32778
  match community test-in-32778-cl
  set comm-list test-in-32778-cl-rm delete
  continue 32788
exit
"
        )
    );
}

#[test]
fn remove_rm_item_unset_comm() {
    let rm = bgp_remove_rm_item(
        "test",
        RmDir::Incoming,
        &RouteMapBuilder::new()
            .allow()
            .order(10)
            .match_community(100)
            .remove_community(100)
            .build(),
        None,
        20,
    )
    .unwrap();
    assert_eq!(
        rm,
        String::from(
            "!
no ip community-list standard test-in-32778-cl
no ip community-list standard test-in-32778-cl-rm
no route-map test-in permit 32778
"
        )
    );
}

#[test]
fn rm_item_unset_comm_update_last() {
    let mut ip = get_ip();
    let rm = bgp_rm_item(
        &mut ip,
        AsId(1),
        "test",
        RmDir::Incoming,
        &RouteMapBuilder::new()
            .allow()
            .order(10)
            .match_community(100)
            .remove_community(100)
            .build(),
        Some(
            &RouteMapBuilder::new()
                .allow()
                .order(5)
                .match_community(100)
                .remove_community(100)
                .build(),
        ),
        20,
    )
    .unwrap();
    assert_eq!(
        rm,
        String::from(
            "!
ip community-list standard test-in-32778-cl permit 1:100
ip community-list standard test-in-32778-cl-rm permit 1:100
route-map test-in permit 32778
  match community test-in-32778-cl
  set comm-list test-in-32778-cl-rm delete
  continue 32788
exit
route-map test-in permit 32773
  continue 32778
exit
"
        )
    );
}

#[test]
fn rm_item_unset_comm_update_last_deny() {
    let mut ip = get_ip();
    let rm = bgp_rm_item(
        &mut ip,
        AsId(1),
        "test",
        RmDir::Incoming,
        &RouteMapBuilder::new()
            .allow()
            .order(10)
            .match_community(100)
            .remove_community(100)
            .build(),
        Some(&RouteMapBuilder::new().deny().order(5).match_community(100).build()),
        20,
    )
    .unwrap();
    assert_eq!(
        rm,
        String::from(
            "!
ip community-list standard test-in-32778-cl permit 1:100
ip community-list standard test-in-32778-cl-rm permit 1:100
route-map test-in permit 32778
  match community test-in-32778-cl
  set comm-list test-in-32778-cl-rm delete
  continue 32788
exit
"
        )
    );
}

#[test]
fn remove_rm_item_update_last() {
    let rm = bgp_remove_rm_item(
        "test",
        RmDir::Incoming,
        &RouteMapBuilder::new()
            .allow()
            .order(10)
            .match_community(100)
            .match_prefix(Prefix::from(1))
            .set_community(200)
            .build(),
        Some(
            &RouteMapBuilder::new()
                .allow()
                .order(5)
                .match_community(100)
                .set_community(200)
                .build(),
        ),
        20,
    )
    .unwrap();
    assert_eq!(
        rm,
        String::from(
            "!
no ip prefix-list test-in-32778-pl
no ip community-list standard test-in-32778-cl
no route-map test-in permit 32778
route-map test-in permit 32773
  continue 32788
exit
"
        )
    );
}

#[test]
fn remove_rm_item_update_last_deny() {
    let rm = bgp_remove_rm_item(
        "test",
        RmDir::Incoming,
        &RouteMapBuilder::new()
            .allow()
            .order(10)
            .match_community(100)
            .match_prefix(Prefix::from(1))
            .set_community(200)
            .build(),
        Some(&RouteMapBuilder::new().deny().order(5).match_community(100).build()),
        20,
    )
    .unwrap();
    assert_eq!(
        rm,
        String::from(
            "!
no ip prefix-list test-in-32778-pl
no ip community-list standard test-in-32778-cl
no route-map test-in permit 32778
"
        )
    );
}
