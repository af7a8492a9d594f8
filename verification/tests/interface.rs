use whorl::runtime::{Blocking, Interface, Runtime};

#[test]
fn waiting_ends_when_every_task_is_dropped() {
    let mut interface: Interface<u8> = Interface::new();
    assert!(interface.wait());
    interface.spawn(1);
    interface.block_on(2);
    assert!(!interface.wait());
    assert_eq!(interface.sent_len(), 2);
    interface.drop_task();
    assert!(!interface.wait());
    interface.drop_task();
    assert!(interface.wait());
}

#[test]
fn count_of_tasks_wraps_around() {
    let mut interface: Interface<u8> = Interface::new();
    interface.drop_task();
    assert!(!interface.wait());
    interface.spawn(1);
    assert!(interface.wait());
}

#[test]
fn tasks_get_tags_in_order() {
    let mut runtime: Runtime<char> = Runtime::new();
    assert_eq!(runtime.tags(), 0);
    runtime.queue_new(Blocking::NonBlocking, 'a');
    runtime.queue_new(Blocking::Blocking, 'b');
    assert_eq!(runtime.tags(), 2);
}

#[test]
fn runtime_receives_all_that_was_sent() {
    let mut runtime: Runtime<char> = Runtime::new();
    let mut interface: Interface<char> = Interface::new();
    interface.spawn('a');
    interface.block_on('b');
    runtime.queue_all(&mut interface);
    assert_eq!(runtime.tags(), 2);
    assert_eq!(interface.sent_len(), 0);
    assert!(!interface.wait());
    runtime.queue_all(&mut interface);
    assert_eq!(runtime.tags(), 2);
}
