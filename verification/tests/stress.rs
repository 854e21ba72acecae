use drone_core::heap::Pool;

const BASE: usize = 0x1000_0000;

/// One execution context that allocates a block, holds it for a while and
/// gives it back, a fixed number of times.
struct Context {
    held: Option<usize>,
    hold_for: usize,
    cycles_left: usize,
}

/// Runs `contexts` contexts of `cycles` allocate/deallocate cycles each over
/// a pool of `capacity` blocks. The contexts take turns in an order drawn
/// from `seed`, one pool operation per turn.
fn stress(capacity: usize, contexts: usize, cycles: usize, mut seed: u64) {
    let mut pool = Pool::new(32, capacity);
    pool.init(BASE);
    let mut running: Vec<Context> = (0..contexts)
        .map(|_| Context { held: None, hold_for: 0, cycles_left: cycles })
        .collect();
    let mut refused = 0usize;
    let mut served = 0usize;
    while running.iter().any(|context| context.cycles_left > 0) {
        seed = seed.wrapping_mul(6_364_136_223_846_793_005).wrapping_add(1_442_695_040_888_963_407);
        let turn = (seed >> 33) as usize % contexts;
        let pause = (seed >> 20) as usize % 4;
        if running[turn].cycles_left == 0 {
            continue;
        }
        match running[turn].held {
            None => match pool.allocate() {
                Some(address) => {
                    assert!(pool.is_block(address));
                    assert!(
                        running.iter().all(|context| context.held != Some(address)),
                        "block {address:#x} handed out twice"
                    );
                    running[turn].held = Some(address);
                    running[turn].hold_for = pause;
                    served += 1;
                },
                None => {
                    let holders = running.iter().filter(|context| context.held.is_some()).count();
                    assert_eq!(holders, capacity);
                    refused += 1;
                },
            },
            Some(address) => {
                if running[turn].hold_for > 0 {
                    running[turn].hold_for -= 1;
                } else {
                    pool.deallocate(address);
                    running[turn].held = None;
                    running[turn].cycles_left -= 1;
                }
            },
        }
        let holders = running.iter().filter(|context| context.held.is_some()).count();
        assert!(pool.available() <= capacity);
        assert_eq!(pool.available() + holders, capacity);
    }
    assert_eq!(served, contexts * cycles);
    assert_eq!(pool.available(), capacity);
    assert!(refused > 0, "the pool was never exhausted");
}

#[test]
fn contexts_that_outnumber_the_blocks_never_share_one() {
    stress(3, 8, 200, 1);
}

#[test]
fn contexts_contend_for_a_single_block() {
    stress(1, 5, 100, 2);
}

#[test]
fn many_contexts_over_many_schedules() {
    for seed in 10..30 {
        stress(4, 16, 50, seed);
    }
}
