use memory_scanner::names::{
    find_module, get_process_ids, get_process_name, modules_to_query, print_modules,
    print_process_names, short_file_name, ProcessProbe,
};

fn buffer(path: &str) -> Vec<u8> {
    let mut v = path.as_bytes().to_vec();
    v.resize(512, 0);
    v
}

#[test]
fn short_name_drops_directories_and_padding() {
    let raw = buffer("C:\\Windows\\System32\\notepad.exe");
    assert_eq!(short_file_name(&raw), Some("notepad.exe".to_string()));
}

#[test]
fn short_name_without_separator_is_whole_path() {
    assert_eq!(short_file_name(&buffer("game.exe")), Some("game.exe".to_string()));
}

#[test]
fn short_name_of_empty_buffer_is_none() {
    assert_eq!(short_file_name(&vec![0u8; 512]), None);
    assert_eq!(short_file_name(&Vec::new()), None);
}

#[test]
fn short_name_trims_leading_nul_too() {
    let mut raw = vec![0u8, 0];
    raw.extend_from_slice(b"dir\\a.dll");
    raw.extend_from_slice(&[0, 0, 0]);
    assert_eq!(short_file_name(&raw), Some("a.dll".to_string()));
}

#[test]
fn short_name_of_trailing_separator_is_empty() {
    assert_eq!(short_file_name(&buffer("C:\\dir\\")), Some(String::new()));
}

#[test]
fn short_name_replaces_invalid_utf8() {
    let mut raw = b"C:\\x\\a".to_vec();
    raw.push(0xff);
    raw.push(b'b');
    raw.push(0);
    assert_eq!(short_file_name(&raw), Some("a\u{FFFD}b".to_string()));
}

#[test]
fn process_ids_drop_empty_slots() {
    assert_eq!(get_process_ids(vec![0, 4, 0, 88, 12, 0, 0]), vec![4, 88, 12]);
    assert_eq!(get_process_ids(vec![0; 1024]), Vec::<u32>::new());
}

#[test]
fn process_list_skips_unopened_and_empty() {
    let probes = vec![
        ProcessProbe { pid: 4, file_name: None },
        ProcessProbe { pid: 100, file_name: Some(buffer("C:\\Program Files\\app.exe")) },
        ProcessProbe { pid: 200, file_name: Some(vec![0u8; 512]) },
        ProcessProbe { pid: 300, file_name: Some(buffer("svc.exe")) },
    ];
    let names = print_process_names(&probes);
    let got: Vec<(u32, String)> = names.into_iter().map(|p| (p.pid, p.name)).collect();
    assert_eq!(got, vec![(100, "app.exe".to_string()), (300, "svc.exe".to_string())]);
}

#[test]
fn process_name_or_none_found() {
    assert_eq!(get_process_name(&Some(buffer("C:\\a\\b.exe"))), "b.exe");
    assert_eq!(get_process_name(&Some(vec![0u8; 512])), "None Found");
    assert_eq!(get_process_name(&None), "None Found");
}

#[test]
fn modules_listed_in_order() {
    let names = vec![
        Some(buffer("C:\\game\\game.exe")),
        None,
        Some(vec![0u8; 512]),
        Some(buffer("C:\\Windows\\System32\\kernel32.dll")),
    ];
    assert_eq!(print_modules(&names), vec!["game.exe".to_string(), "kernel32.dll".to_string()]);
}

#[test]
fn find_module_first_match() {
    let names = vec![
        buffer("C:\\game\\game.exe"),
        buffer("C:\\Windows\\ntdll.dll"),
        buffer("D:\\other\\ntdll.dll"),
    ];
    assert_eq!(find_module(&names, &"ntdll.dll".to_string()), Some(1));
    assert_eq!(find_module(&names, &"game.exe".to_string()), Some(0));
    assert_eq!(find_module(&names, &"missing.dll".to_string()), None);
    assert_eq!(find_module(&Vec::new(), &"a".to_string()), None);
}

#[test]
fn modules_to_query_cuts_but_never_grows() {
    assert_eq!(modules_to_query(512, 40), 40);
    assert_eq!(modules_to_query(512, 4096), 512);
    assert_eq!(modules_to_query(512, 512), 512);
}
