use proxy::router::{AppState, Balancer, Host, SocketAddress};

fn v4(last: u8) -> SocketAddress {
    SocketAddress::V4([10, 0, 0, last], 80)
}

#[test]
fn balancer_round_robin() {
    let mut balancer = Balancer::new(vec![v4(1), v4(2), v4(3)]);
    let picks: Vec<SocketAddress> = (0..7).map(|_| balancer.route()).collect();
    assert_eq!(picks, vec![v4(1), v4(2), v4(3), v4(1), v4(2), v4(3), v4(1)]);
}

#[test]
fn route_spreads_evenly() {
    let mut state = AppState::new(
        String::from("0.0.0.0:80"),
        2,
        vec![Host { name: b"a.example.com".to_vec(), addrs: vec![v4(1), v4(2), v4(3)] }],
    );
    let h = state.hash("a.example.com");
    let mut counts = [0usize; 3];
    for _ in 0..3 * 50 {
        match state.route(h) {
            Some(SocketAddress::V4([_, _, _, last], _)) => counts[(last - 1) as usize] += 1,
            other => panic!("unexpected {:?}", other),
        }
    }
    assert_eq!(counts, [50, 50, 50]);
}

#[test]
fn route_unknown_host() {
    let mut state = AppState::new(
        String::from("0.0.0.0:80"),
        2,
        vec![Host { name: b"a.example.com".to_vec(), addrs: vec![v4(1)] }],
    );
    let h = state.hash("unknown.example.com");
    assert_eq!(state.route(h), None);
}

#[test]
fn later_host_replaces_earlier() {
    let mut state = AppState::new(
        String::from("0.0.0.0:80"),
        2,
        vec![
            Host { name: b"a.example.com".to_vec(), addrs: vec![v4(1)] },
            Host { name: b"b.example.com".to_vec(), addrs: vec![v4(2)] },
            Host { name: b"a.example.com".to_vec(), addrs: vec![v4(9)] },
        ],
    );
    assert_eq!(state.route(state.hash("a.example.com")), Some(v4(9)));
    assert_eq!(state.route(state.hash("b.example.com")), Some(v4(2)));
}
