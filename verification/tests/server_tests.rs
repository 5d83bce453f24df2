use memory_scanner::server::{
    index, CurrentProcess, ALREADY_OPEN, NO_PROCESS_OPEN, NO_PROCESS_OPEN_PID,
};

#[test]
fn index_greets() {
    assert_eq!(index(), "Hello World");
}

#[test]
fn server_starts_closed() {
    let c = CurrentProcess::new();
    assert_eq!(c.name, "None");
    assert_eq!(c.pid, 0);
    assert_eq!(c.handle, 0);
    assert!(!c.is_open());
    assert_eq!(c.curr_state(), Err(NO_PROCESS_OPEN.to_string()));
    assert_eq!(c.get_modules(), Err(NO_PROCESS_OPEN_PID.to_string()));
    assert_eq!(c.open_pid_allowed(), Ok(()));
}

#[test]
fn open_state_close_cycle() {
    let mut c = CurrentProcess::new();
    assert_eq!(c.open_pid(1234, 77, "game.exe".to_string()), Ok("game.exe".to_string()));
    assert!(c.is_open());
    assert_eq!((c.pid, c.handle), (1234, 77));
    assert_eq!(c.curr_state(), Ok("game.exe is currently open".to_string()));
    assert_eq!(c.get_modules(), Ok(77));
    assert_eq!(c.open_pid_allowed(), Err(ALREADY_OPEN.to_string()));
    assert_eq!(c.close_pid(), Ok((77, "Closed process game.exe".to_string())));
    assert!(!c.is_open());
    assert_eq!((c.name.as_str(), c.pid, c.handle), ("None", 0, 0));
}

#[test]
fn second_open_is_refused() {
    let mut c = CurrentProcess::new();
    c.open_pid(1, 10, "a.exe".to_string()).unwrap();
    assert_eq!(c.open_pid(2, 20, "b.exe".to_string()), Err(ALREADY_OPEN.to_string()));
    assert_eq!((c.name.as_str(), c.pid, c.handle), ("a.exe", 1, 10));
}

#[test]
fn close_without_open_is_refused() {
    let mut c = CurrentProcess::new();
    assert_eq!(c.close_pid(), Err(NO_PROCESS_OPEN_PID.to_string()));
    assert_eq!((c.name.as_str(), c.pid, c.handle), ("None", 0, 0));
}

#[test]
fn process_named_none_reads_as_closed() {
    let mut c = CurrentProcess::new();
    assert_eq!(c.open_pid(5, 9, "None".to_string()), Ok("None".to_string()));
    assert!(!c.is_open());
    assert_eq!(c.curr_state(), Err(NO_PROCESS_OPEN.to_string()));
}
