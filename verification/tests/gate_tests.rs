use std::time::Duration;

use async_std::future;
use futures::executor::block_on;
use futures::Future;
use udp_tcp_copycat::gate::{new, GateClosed, GateUser};

async fn pass(user: &GateUser) {
    if user.must_wait() {
        user.open_receiver().recv().await.unwrap();
    }
}

#[test]
fn test() {
    let (controller, user) = new();

    assert_can_pass(&user);
    assert_can_pass(&user);
    assert_can_pass(&user);

    controller.close().unwrap();

    assert_cannot_pass(&user);
}

#[test]
fn gate_opens_again() {
    let (controller, user) = new();
    controller.close().unwrap();
    // A second close while one is pending is no error.
    controller.close().unwrap();
    controller.open().unwrap();
    assert_can_pass(&user);
    assert_can_pass(&user);
}

#[test]
fn gate_without_user_reports_closed() {
    let (controller, user) = new();
    drop(user);
    assert_eq!(controller.close(), Err(GateClosed));
    assert_eq!(controller.open(), Err(GateClosed));
}

fn assert_can_pass(user: &GateUser) {
    block_on(async {
        pass(user).await;
    });
}

fn assert_cannot_pass(user: &GateUser) {
    block_on(async {
        assert_timeout(pass(user)).await;
    });
}

async fn assert_timeout<F: Future<Output = T>, T>(f: F) {
    let dur = Duration::from_millis(1);
    assert!(future::timeout(dur, f).await.is_err());
}
