use bgpsim::external_router::DeviceError;
use bgpsim::formatter::{NameTable, NetworkFormatter};
use bgpsim::types::{NetworkError, NetworkErrorOption, RouterId};

fn names() -> NameTable {
    NameTable { names: vec![String::from("a"), String::from("b"), String::from("c")] }
}

#[test]
fn routers_and_paths() {
    let n = names();
    assert_eq!(RouterId(1).fmt(&n), "b");
    assert_eq!(RouterId(9).fmt(&n), "?");
    assert_eq!(vec![RouterId(0), RouterId(1), RouterId(2)].fmt(&n), "a -> b -> c");
    assert_eq!(Vec::<RouterId>::new().fmt(&n), "");
    assert_eq!(vec![vec![RouterId(0), RouterId(2)], vec![RouterId(1)]].fmt(&n), "a -> c | b");
}

#[test]
fn errors() {
    let n = names();
    assert_eq!(NetworkError::DeviceNotFound(RouterId(17)).fmt(&n), "Device with id=17 not found!");
    assert_eq!(
        NetworkError::ForwardingLoop(vec![RouterId(0), RouterId(1), RouterId(0)]).fmt(&n),
        "Forwarding loop found! a -> b -> a"
    );
    assert_eq!(NetworkError::ForwardingBlackHole(vec![RouterId(2)]).fmt(&n), "Black hole found! c");
    assert_eq!(DeviceError::NoBgpSession(RouterId(0)).fmt(&n), "No BGP session established with a!");
    assert_eq!(DeviceError::RouterNotFound(RouterId(2)).fmt(&n), "Router c was not found in the IGP table!");
}

#[test]
fn missing_values_become_errors() {
    assert_eq!(Some(3).or_router_not_found(RouterId(1)), Ok(3));
    assert_eq!(None::<u8>.or_router_not_found(RouterId(1)), Err(NetworkError::DeviceNotFound(RouterId(1))));
    assert_eq!(
        None::<u8>.or_link_not_found(RouterId(1), RouterId(2)),
        Err(NetworkError::LinkNotFound(RouterId(1), RouterId(2)))
    );
    assert_eq!(
        NetworkError::LinkNotFound(RouterId(0), RouterId(5)).fmt(&names()),
        "No link between a and ? exists!"
    );
}
