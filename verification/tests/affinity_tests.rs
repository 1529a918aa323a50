use async_executors_ext::affinity::{
    bind_result, to_cpu_set, try_bind_cores_in_order, to_io_error, try_bind_available_cpu, try_bind_to_cpu,
    try_unbind_from_cpu, AffinityError, CoreTable, CpuBindError, SysError, CORE_TABLE_SIZE,
};

#[test]
fn io_error_kinds() {
    assert_eq!(to_io_error(SysError::Sys(22)), AffinityError::Os(22));
    assert_eq!(to_io_error(SysError::InvalidPath), AffinityError::InvalidInput);
    assert_eq!(to_io_error(SysError::InvalidUtf8), AffinityError::InvalidInput);
    assert_eq!(to_io_error(SysError::UnsupportedOperation), AffinityError::Other);
}

#[test]
fn bind_result_names_the_core() {
    assert_eq!(bind_result(4, Ok(())), Ok(()));
    assert_eq!(
        bind_result(4, Err(AffinityError::Os(1))),
        Err(CpuBindError::Affinity(4, AffinityError::Os(1)))
    );
}

#[test]
fn cpu_set_of_listed_cores() {
    let set = to_cpu_set(&[3, 9]);
    assert!(set.is_set(3).unwrap());
    assert!(set.is_set(9).unwrap());
    assert!(!set.is_set(4).unwrap());
    assert!(!set.is_set(0).unwrap());
}

#[test]
fn cpu_set_of_no_core_is_every_core() {
    let set = to_cpu_set(&[]);
    let capacity = nix::sched::CpuSet::count();
    assert_eq!(capacity, 1024);
    for i in 0..capacity {
        assert!(set.is_set(i).unwrap());
    }
}

#[test]
fn core_table_starts_free() {
    let t = CoreTable::new();
    for i in 0..CORE_TABLE_SIZE as i32 {
        assert!(!t.is_allocated(i));
    }
}

#[test]
fn taken_core_is_refused() {
    let mut t = CoreTable::new();
    let first = try_bind_to_cpu(&mut t, 0);
    assert!(matches!(first, Ok(()) | Err(CpuBindError::Affinity(0, _))));
    assert!(t.is_allocated(0));
    assert_eq!(try_bind_to_cpu(&mut t, 0), Err(CpuBindError::CoreTaken(0)));
    let _ = try_unbind_from_cpu();
}

#[test]
fn full_table_has_no_core_available() {
    let mut t = CoreTable::new();
    for i in 0..CORE_TABLE_SIZE as i32 {
        let _ = try_bind_to_cpu(&mut t, i);
    }
    for i in 0..CORE_TABLE_SIZE as i32 {
        assert!(t.is_allocated(i));
    }
    assert_eq!(try_bind_available_cpu(&mut t), Err(CpuBindError::NoCoreAvailable));
    assert!(try_unbind_from_cpu().is_ok());
}

#[test]
fn available_core_binds_first_usable_core() {
    let mut t = CoreTable::new();
    let r = try_bind_available_cpu(&mut t);
    // Core 0 exists on every machine the tests run on.
    assert_eq!(r, Ok(()));
    assert!(t.is_allocated(0));
    assert!(!t.is_allocated(CORE_TABLE_SIZE as i32 - 1));
    assert!(try_unbind_from_cpu().is_ok());
}

#[test]
fn unbind_restores_every_core() {
    assert_eq!(try_unbind_from_cpu(), Ok(()));
}

#[test]
fn scan_of_full_table_reports_no_core() {
    let mut t = CoreTable::new();
    for i in 0..CORE_TABLE_SIZE as i32 {
        let _ = try_bind_to_cpu(&mut t, i);
    }
    let (r, _answers) = try_bind_cores_in_order(&mut t);
    assert_eq!(r, Err(CpuBindError::NoCoreAvailable));
    assert!(try_unbind_from_cpu().is_ok());
}
