use rand::Rng;
use std::cell::{Cell, RefCell};
use std::future::Future;
use std::pin::Pin;
use std::rc::Rc;
use std::sync::Arc;
use std::task::{Context, Wake};
use whorl::futures::{Poll, Sleep};
use whorl::runtime::{start, Executor};

/// A clock that only goes on when it is told to, in milliseconds.
type Clock = Rc<Cell<u128>>;
type Boxed = RefCell<Pin<Box<dyn Future<Output = ()>>>>;
type Shared = Rc<RefCell<Executor<Boxed>>>;

/// Sleeps by such a clock.
struct Nap {
    sleep: Sleep,
    created: u128,
    clock: Clock,
}

fn nap(ms: u128, clock: &Clock) -> Nap {
    Nap { sleep: Sleep::new(ms), created: clock.get(), clock: clock.clone() }
}

impl Future for Nap {
    type Output = ();

    fn poll(self: Pin<&mut Self>, _: &mut Context<'_>) -> std::task::Poll<()> {
        match self.sleep.poll_after(self.clock.get() - self.created) {
            Poll::Ready => std::task::Poll::Ready(()),
            Poll::Pending => std::task::Poll::Pending,
        }
    }
}

/// The executor below polls pending tasks again by itself.
struct NoWake;

impl Wake for NoWake {
    fn wake(self: Arc<Self>) {}
}

fn spawn(shared: &Shared, future: impl Future<Output = ()> + 'static) {
    shared.borrow_mut().interface().spawn(RefCell::new(Box::pin(future)));
}

fn block_on(shared: &Shared, future: impl Future<Output = ()> + 'static) {
    shared.borrow_mut().interface().block_on(RefCell::new(Box::pin(future)));
}

/// Runs the executor until there is no task left to wait for. Each poll takes ten
/// milliseconds.
fn wait(shared: &Shared, clock: &Clock) {
    while !shared.borrow_mut().interface().wait() {
        assert!(shared.borrow().has_tags());
        let task = match shared.borrow_mut().next_task() {
            None => continue,
            Some(task) => task,
        };
        loop {
            clock.set(clock.get() + 10);
            let outcome = task.poll(|future, _| {
                let waker = Arc::new(NoWake).into();
                let mut context = Context::from_waker(&waker);
                match future.borrow_mut().as_mut().poll(&mut context) {
                    std::task::Poll::Ready(()) => Poll::Ready,
                    std::task::Poll::Pending => Poll::Pending,
                }
            });
            let again = shared.borrow_mut().finish_poll(outcome);
            if outcome == Poll::Ready {
                shared.borrow_mut().interface().drop_task();
            }
            if !again {
                break;
            }
        }
    }
}

/// Spawns futures from within futures, and blocks on one from within another.
#[test]
fn library_test() {
    const SECOND: u128 = 1000;
    let clock: Clock = Rc::new(Cell::new(0));
    let shared: Shared = Rc::new(RefCell::new(start()));
    let log: Rc<RefCell<Vec<(String, u128)>>> = Rc::new(RefCell::new(Vec::new()));
    let naps: Rc<RefCell<Vec<(u128, u128)>>> = Rc::new(RefCell::new(Vec::new()));

    let (outer_shared, outer_clock, outer_log, outer_naps) =
        (shared.clone(), clock.clone(), log.clone(), naps.clone());
    block_on(&shared, async move {
        let (shared, clock, log, naps) = (outer_shared, outer_clock, outer_log, outer_naps);
        log.borrow_mut().push(("Begin Asynchronous Execution".to_string(), clock.get()));
        let mut rng = rand::thread_rng();
        for i in 0..5u32 {
            let random: u128 = rng.gen_range(1..10);
            let random2: u128 = rng.gen_range(1..10);
            naps.borrow_mut().push((SECOND * random, SECOND * random2));
            let (task_shared, task_clock, task_log) = (shared.clone(), clock.clone(), log.clone());
            spawn(&shared, async move {
                let (shared, clock, log) = (task_shared, task_clock, task_log);
                log.borrow_mut().push((format!("Spawned Fn #{:02}: Start", i), clock.get()));
                nap(SECOND * random, &clock).await;
                let (inner_clock, inner_log) = (clock.clone(), log.clone());
                spawn(&shared, async move {
                    nap(SECOND * random2, &inner_clock).await;
                    inner_log
                        .borrow_mut()
                        .push((format!("Spawned Fn #{:02}: Inner", i), inner_clock.get()));
                });
                log.borrow_mut().push((format!("Spawned Fn #{:02}: Ended", i), clock.get()));
            });
        }
        let (inner_clock, inner_log) = (clock.clone(), log.clone());
        block_on(&shared, async move {
            nap(11000, &inner_clock).await;
            inner_log
                .borrow_mut()
                .push(("Blocking Function Polled To Completion".to_string(), inner_clock.get()));
        });
    });
    wait(&shared, &clock);
    log.borrow_mut().push(("End of Asynchronous Execution".to_string(), clock.get()));

    let log = log.borrow();
    let at = |line: &str| log.iter().position(|entry| entry.0 == line).unwrap();
    assert_eq!(log.len(), 18);
    assert_eq!(log[0].0, "Begin Asynchronous Execution");
    assert_eq!(log[1].0, "Blocking Function Polled To Completion");
    assert!(log[1].1 >= 11000);
    for i in 0..5usize {
        let (random, random2) = naps.borrow()[i];
        assert_eq!(log[2 + i].0, format!("Spawned Fn #{:02}: Start", i));
        let begun = log[2 + i].1;
        let ended = at(&format!("Spawned Fn #{:02}: Ended", i));
        let inner = at(&format!("Spawned Fn #{:02}: Inner", i));
        assert!(ended < inner);
        assert!(log[ended].1 >= begun + random);
        assert!(log[inner].1 >= log[ended].1 + random2);
    }
    assert_eq!(log[17].0, "End of Asynchronous Execution");
    assert!(shared.borrow_mut().interface().wait());
    assert!(shared.borrow_mut().next_task().is_none());
}
