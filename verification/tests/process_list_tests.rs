use arkcursor::process_list::{picker_rows, ProcEntry};

fn entry(pid: u32, exe: &str, title: &str) -> ProcEntry {
    ProcEntry { pid, exe: exe.to_string(), title: title.to_string(), class: "C".to_string() }
}

#[test]
fn rows_sorted_filtered_and_folded() {
    let raw = vec![
        entry(1, "zeta.exe", "Z"),
        entry(2, "alpha.exe", "A1"),
        entry(3, "", "no exe"),
        entry(4, "beta.exe", ""),
        entry(5, "alpha.exe", "A1"),
        entry(6, "alpha.exe", "A2"),
        entry(7, "Beta.exe", "B"),
    ];
    let rows = picker_rows(raw);
    let got: Vec<(u32, &str, &str)> =
        rows.iter().map(|e| (e.pid, e.exe.as_str(), e.title.as_str())).collect();
    assert_eq!(
        got,
        vec![(7, "Beta.exe", "B"), (2, "alpha.exe", "A1"), (6, "alpha.exe", "A2"), (1, "zeta.exe", "Z")]
    );
}

#[test]
fn equal_names_keep_their_order() {
    let raw = vec![entry(1, "b", "x"), entry(2, "a", "y"), entry(3, "b", "w"), entry(4, "a", "y")];
    let rows = picker_rows(raw);
    let pids: Vec<u32> = rows.iter().map(|e| e.pid).collect();
    assert_eq!(pids, vec![2, 1, 3]);
}
