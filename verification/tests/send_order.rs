use naia_server::keys::Address;
use naia_server::send_order::send_order;

fn addresses(n: u16) -> Vec<Address> {
    (0..n).map(|p| Address { ip: 0xffff_7f00_0001, port: 9000 + p }).collect()
}

#[test]
fn every_connection_is_served_once() {
    let conns = addresses(12);
    let order = send_order(&conns);
    let mut sorted = order.clone();
    sorted.sort_by_key(|a| a.port);
    assert_eq!(sorted, conns);
}

#[test]
fn the_order_is_shuffled() {
    let conns = addresses(20);
    // twenty identical shuffles of twenty items are practically impossible
    let changed = (0..20).any(|_| send_order(&conns) != conns);
    assert!(changed);
}

#[test]
fn no_connections_no_order() {
    assert!(send_order(&Vec::new()).is_empty());
}
