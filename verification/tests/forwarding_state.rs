use bgpsim::forwarding_state::ForwardingState;
use bgpsim::types::{NetworkError, Prefix, RouterId, TO_DST_ID};

fn r(x: u32) -> RouterId {
    RouterId(x)
}

fn dst() -> RouterId {
    RouterId(TO_DST_ID)
}

fn state(entries: &[(u32, Vec<RouterId>)]) -> ForwardingState {
    let mut s = ForwardingState::new();
    for (router, nhs) in entries {
        s.update(r(*router), Prefix(0), nhs.clone());
    }
    s
}

fn reach(s: &ForwardingState, router: u32) -> Vec<u32> {
    let mut v: Vec<u32> = s.get_nodes_along_paths(r(router), Prefix(0)).into_iter().map(|x| x.0).collect();
    v.sort();
    v
}

#[test]
fn test_route() {
    let p = Prefix(0);
    let s = state(&[(0, vec![dst()]), (1, vec![r(0)]), (2, vec![r(1)]), (3, vec![r(1)]), (4, vec![r(2)])]);
    assert_eq!(reach(&s, 2), vec![0, 1, 2]);
    assert_eq!(s.get_route(r(0), p), Ok(vec![vec![r(0)]]));
    assert_eq!(s.get_route(r(1), p), Ok(vec![vec![r(1), r(0)]]));
    assert_eq!(s.get_route(r(2), p), Ok(vec![vec![r(2), r(1), r(0)]]));
    assert_eq!(s.get_route(r(3), p), Ok(vec![vec![r(3), r(1), r(0)]]));
    assert_eq!(s.get_route(r(4), p), Ok(vec![vec![r(4), r(2), r(1), r(0)]]));
    assert_eq!(s.get_route(r(5), p), Err(NetworkError::ForwardingBlackHole(vec![r(5)])));
}

#[test]
fn test_forwarding_loop_2() {
    let p = Prefix(0);
    let s = state(&[(0, vec![dst()]), (1, vec![r(0)]), (2, vec![r(3)]), (3, vec![r(4)]), (4, vec![r(3)])]);
    assert_eq!(reach(&s, 2), vec![2, 3, 4]);
    assert_eq!(reach(&s, 3), vec![3, 4]);
    assert_eq!(reach(&s, 4), vec![3, 4]);
    assert_eq!(s.get_route(r(2), p), Err(NetworkError::ForwardingLoop(vec![r(3), r(4), r(3)])));
    assert_eq!(s.get_route(r(3), p), Err(NetworkError::ForwardingLoop(vec![r(3), r(4), r(3)])));
    assert_eq!(s.get_route(r(4), p), Err(NetworkError::ForwardingLoop(vec![r(4), r(3), r(4)])));
}

#[test]
fn test_forwarding_loop_3() {
    let p = Prefix(0);
    let s = state(&[(0, vec![dst()]), (1, vec![r(2)]), (2, vec![r(3)]), (3, vec![r(4)]), (4, vec![r(2)])]);
    assert_eq!(reach(&s, 1), vec![1, 2, 3, 4]);
    assert_eq!(reach(&s, 2), vec![2, 3, 4]);
    assert_eq!(s.get_route(r(1), p), Err(NetworkError::ForwardingLoop(vec![r(2), r(3), r(4), r(2)])));
    assert_eq!(s.get_route(r(3), p), Err(NetworkError::ForwardingLoop(vec![r(3), r(4), r(2), r(3)])));
}

#[test]
fn test_route_load_balancing() {
    let p = Prefix(0);
    let s = state(&[(0, vec![dst()]), (1, vec![r(0)]), (2, vec![r(1), r(0)]), (3, vec![r(1)]), (4, vec![r(2)])]);
    assert_eq!(reach(&s, 2), vec![0, 1, 2]);
    assert_eq!(s.get_route(r(2), p), Ok(vec![vec![r(2), r(1), r(0)], vec![r(2), r(0)]]));
    assert_eq!(s.get_route(r(4), p), Ok(vec![vec![r(4), r(2), r(1), r(0)], vec![r(4), r(2), r(0)]]));
    assert_eq!(s.get_route(r(5), p), Err(NetworkError::ForwardingBlackHole(vec![r(5)])));
}

#[test]
fn test_route_load_balancing_multiply() {
    let p = Prefix(0);
    let s = state(&[
        (0, vec![dst()]),
        (1, vec![r(0)]),
        (2, vec![r(1), r(0)]),
        (3, vec![r(2)]),
        (4, vec![r(2)]),
        (5, vec![r(3), r(4)]),
    ]);
    assert_eq!(reach(&s, 5), vec![0, 1, 2, 3, 4, 5]);
    assert_eq!(
        s.get_route(r(5), p),
        Ok(vec![
            vec![r(5), r(3), r(2), r(1), r(0)],
            vec![r(5), r(3), r(2), r(0)],
            vec![r(5), r(4), r(2), r(1), r(0)],
            vec![r(5), r(4), r(2), r(0)],
        ])
    );
}

#[test]
fn test_loop_with_load_balancing_keeps_exploring() {
    let s = state(&[(0, vec![dst()]), (1, vec![r(0)]), (2, vec![r(3)]), (3, vec![r(4), r(1)]), (4, vec![r(3)])]);
    assert_eq!(reach(&s, 2), vec![0, 1, 2, 3, 4]);
    assert_eq!(reach(&s, 3), vec![0, 1, 3, 4]);
    assert_eq!(s.get_route(r(2), Prefix(0)), Err(NetworkError::ForwardingLoop(vec![r(3), r(4), r(3)])));
}

#[test]
fn next_hops_terminals_and_black_holes() {
    let p = Prefix(0);
    let mut s = state(&[(0, vec![dst()]), (1, vec![r(0)]), (2, vec![r(0), r(1)])]);
    assert_eq!(s.get_next_hops(r(0), p), &[] as &[RouterId]);
    assert!(!s.is_black_hole(r(0), p));
    assert_eq!(s.get_next_hops(r(2), p), &[r(0), r(1)]);
    assert!(s.is_terminal(r(0), p));
    assert!(!s.is_terminal(r(1), p));
    assert_eq!(s.get_terminals(p), vec![r(0)]);
    let mut prev = s.get_prev_hops(r(0), p);
    prev.sort_by_key(|x| x.0);
    assert_eq!(prev, vec![r(1), r(2)]);
    assert!(s.is_black_hole(r(7), p));
    // an empty list removes the entry
    s.update(r(1), p, vec![]);
    assert!(s.is_black_hole(r(1), p));
    assert_eq!(s.get_prev_hops(r(0), p), vec![r(2)]);
    // other prefixes are independent
    assert!(s.get_next_hops(r(2), Prefix(1)).is_empty());
}

#[test]
fn diff_and_equality() {
    let p = Prefix(0);
    let a = state(&[(0, vec![dst()]), (1, vec![r(0)]), (2, vec![r(1)])]);
    let mut b = a.clone();
    assert!(a == b);
    assert!(a.diff(&b).is_empty());
    b.update(r(2), p, vec![r(0)]);
    b.update(r(1), p, vec![]);
    b.update(r(3), Prefix(4), vec![r(0)]);
    assert!(a != b);
    let mut d = a.diff(&b);
    d.sort_by_key(|(router, delta)| (router.0, delta.prefix.0));
    assert_eq!(d.len(), 3);
    assert_eq!(d[0].0, r(1));
    assert_eq!(d[0].1.old, vec![r(0)]);
    assert!(d[0].1.new.is_empty());
    assert_eq!(d[1].0, r(2));
    assert_eq!(d[1].1.old, vec![r(1)]);
    assert_eq!(d[1].1.new, vec![r(0)]);
    assert_eq!(d[2].0, r(3));
    assert_eq!(d[2].1.prefix, Prefix(4));
    assert!(d[2].1.old.is_empty());
}

#[test]
fn routers_on_routes_are_along_the_paths() {
    let s = state(&[
        (0, vec![dst()]),
        (1, vec![r(0)]),
        (2, vec![r(1), r(0)]),
        (3, vec![r(2)]),
        (4, vec![r(2)]),
        (5, vec![r(3), r(4)]),
    ]);
    for src in 0..6 {
        let nodes = s.get_nodes_along_paths(r(src), Prefix(0));
        assert!(nodes.contains(&r(src)));
        for path in s.get_route(r(src), Prefix(0)).unwrap() {
            assert_eq!(path[0], r(src));
            assert!(s.is_terminal(*path.last().unwrap(), Prefix(0)));
            for x in path {
                assert!(nodes.contains(&x));
            }
        }
    }
}
