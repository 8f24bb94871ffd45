use chrome_dom_diff::pool::ObjectPool;

#[test]
fn test_pool_creation() {
    let pool: ObjectPool<String> = ObjectPool::new();
    assert_eq!(pool.size(), 0);
    assert_eq!(pool.available_count(), 0);
}

#[test]
fn test_pool_with_capacity() {
    let pool: ObjectPool<String> = ObjectPool::with_capacity(10);
    assert_eq!(pool.size(), 0);
    assert_eq!(pool.available_count(), 0);
}

#[test]
fn test_acquire_and_return() {
    let mut pool: ObjectPool<String> = ObjectPool::new();

    let obj1 = pool.acquire();
    *pool.get_mut(&obj1) = String::from("Hello");

    assert_eq!(pool.in_use_count(), 1);
    assert_eq!(pool.get(&obj1), "Hello");

    obj1.release(&mut pool);
    assert_eq!(pool.available_count(), 1);
}

#[test]
fn test_warm_up() {
    let mut pool: ObjectPool<String> = ObjectPool::new();

    pool.warm_up(5);

    assert_eq!(pool.size(), 5);
    assert_eq!(pool.available_count(), 5);
}

#[test]
fn test_clear() {
    let mut pool: ObjectPool<String> = ObjectPool::new();

    let obj = pool.acquire();
    obj.release(&mut pool);

    pool.clear();

    assert_eq!(pool.size(), 0);
    assert_eq!(pool.available_count(), 0);
}

#[test]
fn test_manual_release() {
    let mut pool: ObjectPool<String> = ObjectPool::new();

    let obj = pool.acquire();
    obj.release(&mut pool);

    assert_eq!(pool.available_count(), 1);
}

#[test]
fn test_deref_mut() {
    let mut pool: ObjectPool<Vec<i32>> = ObjectPool::new();

    let obj = pool.acquire();
    pool.get_mut(&obj).push(1);
    pool.get_mut(&obj).push(2);
    pool.get_mut(&obj).push(3);

    assert_eq!(pool.get(&obj).len(), 3);
    assert_eq!(pool.get(&obj).as_slice(), &[1, 2, 3]);
}

#[test]
fn test_multiple_acquires() {
    let mut pool: ObjectPool<String> = ObjectPool::with_capacity(5);

    let mut objs = Vec::new();
    for _ in 0..5 {
        objs.push(pool.acquire());
    }

    assert_eq!(pool.in_use_count(), 5);
    assert_eq!(pool.available_count(), 0);

    for obj in objs {
        obj.release(&mut pool);
    }

    assert_eq!(pool.in_use_count(), 0);
    assert_eq!(pool.available_count(), 5);
}

#[test]
fn pool_test_debug_format() {
    let pool: ObjectPool<String> = ObjectPool::new();
    let debug_str = format!("{:?}", pool);
    assert!(debug_str.contains("ObjectPool"));
}

#[test]
fn test_pool_guard_debug() {
    let mut pool: ObjectPool<String> = ObjectPool::new();
    let obj = pool.acquire();
    let debug_str = format!("{:?}", obj);
    assert!(debug_str.contains("PoolGuard"));
}

#[test]
fn test_custom_factory() {
    let mut pool = ObjectPool::with_factory(5, || String::from("custom"));

    assert_eq!(pool.size(), 5);
    assert_eq!(pool.available_count(), 5);

    let obj = pool.acquire();
    assert_eq!(pool.get(&obj), "custom");
}

#[test]
fn test_empty_pool_behavior() {
    let mut pool: ObjectPool<String> = ObjectPool::new();

    let obj = pool.acquire();
    assert_eq!(pool.size(), 1);
    assert_eq!(pool.in_use_count(), 1);

    obj.release(&mut pool);
    assert_eq!(pool.available_count(), 1);
}

#[test]
fn test_warm_up_boundary_fix() {
    let mut pool: ObjectPool<String> = ObjectPool::new();

    pool.warm_up(5);
    assert_eq!(pool.size(), 5);
    assert_eq!(pool.available_count(), 5);

    pool.warm_up(10);
    assert_eq!(pool.size(), 10);
    assert_eq!(pool.available_count(), 10);

    pool.warm_up(10);
    assert_eq!(pool.size(), 10);
    assert_eq!(pool.available_count(), 10);

    pool.warm_up(5);
    assert_eq!(pool.size(), 10);
}

#[test]
fn test_reuse_prefers_freed_slot() {
    let mut pool: ObjectPool<String> = ObjectPool::new();

    let first = pool.acquire();
    *pool.get_mut(&first) = String::from("kept");
    let slot = first.slot();
    first.release(&mut pool);

    let second = pool.acquire();
    assert_eq!(second.slot(), slot);
    assert_eq!(pool.size(), 1);
    assert_eq!(pool.get(&second), "kept");
    assert_eq!(pool.acquires(), 2);
    assert_eq!(pool.reuses(), 1);
}
