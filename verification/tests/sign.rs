use fps_unlocker::sign::{
    entitlements_file, is_resigned, roblox, Output, Ready, Resign, SignAnswer, SignQuery, ENTITLEMENTS,
};

fn output(success: bool, stdout: &[u8], stderr: &[u8]) -> SignAnswer {
    SignAnswer::Output(Output { success, stdout: stdout.to_vec(), stderr: stderr.to_vec() })
}

fn ready(pids: &[i32], attachable: &[i32]) -> (Vec<i32>, Option<i32>) {
    let mut ready = Ready::ready(pids.to_vec());
    let mut tried = Vec::new();
    while let Some(pid) = ready.query() {
        tried.push(pid);
        ready = ready.answer(if attachable.contains(&pid) { 0 } else { 5 });
    }
    (tried, ready.pid())
}

struct Machine {
    quits_after: usize,
    written: Result<(), String>,
    signed: Result<(bool, Vec<u8>), String>,
    entitlements: Result<(Vec<u8>, Vec<u8>), String>,
    asked: Vec<SignQuery>,
}

fn machine() -> Machine {
    Machine {
        quits_after: 0,
        written: Ok(()),
        signed: Ok((true, b"replacing existing signature".to_vec())),
        entitlements: Ok((b"<key>com.apple.security.get-task-allow</key>".to_vec(), Vec::new())),
        asked: Vec::new(),
    }
}

fn resign(machine: &mut Machine) -> Result<(), String> {
    let mut resign = Resign::resign();
    while let Some(query) = resign.query() {
        machine.asked.push(query);
        let answer = match query {
            SignQuery::Quit | SignQuery::Pause | SignQuery::RemoveEntitlements => SignAnswer::Done,
            SignQuery::Players => {
                let looks = machine.asked.iter().filter(|q| **q == SignQuery::Players).count();
                if looks <= machine.quits_after {
                    SignAnswer::Players(vec![-1, 41])
                } else {
                    SignAnswer::Players(vec![-1, 0])
                }
            }
            SignQuery::WriteEntitlements => match &machine.written {
                Ok(()) => SignAnswer::Done,
                Err(reason) => SignAnswer::Failed(reason.clone()),
            },
            SignQuery::Sign => match &machine.signed {
                Ok((success, stderr)) => output(*success, b"", stderr),
                Err(reason) => SignAnswer::Failed(reason.clone()),
            },
            SignQuery::Entitlements => match &machine.entitlements {
                Ok((stdout, stderr)) => output(true, stdout, stderr),
                Err(reason) => SignAnswer::Failed(reason.clone()),
            },
        };
        resign = resign.answer(answer);
    }
    resign.result()
}

fn count(machine: &Machine, query: SignQuery) -> usize {
    machine.asked.iter().filter(|q| **q == query).count()
}

#[test]
fn the_player_is_the_first_process() {
    assert_eq!(roblox(&[]), None);
    assert_eq!(roblox(&[-1, 0]), None);
    assert_eq!(roblox(&[-1, 12, 7]), Some(12));
}

#[test]
fn the_first_process_that_lets_attach_is_ready() {
    assert_eq!(ready(&[], &[]), (vec![], None));
    assert_eq!(ready(&[-1, 0], &[-1, 0]), (vec![], None));
    assert_eq!(ready(&[-1, 12, 0, 7, 9], &[7, 9]), (vec![12, 7], Some(7)));
    assert_eq!(ready(&[12, 7], &[]), (vec![12, 7], None));
    assert_eq!(ready(&[1], &[1]), (vec![1], Some(1)));
}

#[test]
fn a_ready_process_runs() {
    for pids in [vec![], vec![-1], vec![0, 3], vec![5, -1, 6]] {
        for attachable in [vec![], vec![3], vec![6], vec![3, 5, 6]] {
            if ready(&pids, &attachable).1.is_some() {
                assert!(roblox(&pids).is_some());
            }
        }
    }
}

#[test]
fn the_entitlement_is_looked_for_in_all_output() {
    let name = b"com.apple.security.get-task-allow";
    assert!(is_resigned(output(true, name, b"")));
    assert!(is_resigned(output(false, b"", name)));
    assert!(is_resigned(output(true, &name[..10], &name[10..])));
    assert!(is_resigned(output(true, b"\xff\xfe", &[b"\xc3".as_slice(), name, b"\xff"].concat())));
    assert!(!is_resigned(output(true, &name[1..], b"")));
    assert!(!is_resigned(output(true, b"", b"")));
    assert!(!is_resigned(SignAnswer::Failed("no such file".to_owned())));
    assert!(!is_resigned(SignAnswer::Done));
}

#[test]
fn a_closed_player_is_signed() {
    let mut machine = machine();
    assert_eq!(resign(&mut machine), Ok(()));
    assert_eq!(
        machine.asked,
        vec![
            SignQuery::Quit,
            SignQuery::Players,
            SignQuery::Players,
            SignQuery::WriteEntitlements,
            SignQuery::Sign,
            SignQuery::RemoveEntitlements,
            SignQuery::Entitlements,
        ]
    );
}

#[test]
fn a_player_that_quits_late_is_signed() {
    let mut machine = machine();
    machine.quits_after = 20;
    assert_eq!(resign(&mut machine), Ok(()));
    assert_eq!(count(&machine, SignQuery::Pause), 20);
    assert_eq!(count(&machine, SignQuery::Players), 21);
}

#[test]
fn a_player_that_stays_is_not_signed() {
    let mut machine = machine();
    machine.quits_after = usize::MAX;
    assert_eq!(resign(&mut machine), Err("Roblox did not quit".to_owned()));
    assert_eq!(count(&machine, SignQuery::Pause), 20);
    assert_eq!(count(&machine, SignQuery::Players), 21);
    assert_eq!(count(&machine, SignQuery::Sign), 0);
}

#[test]
fn a_file_that_cannot_be_written_is_told() {
    let mut machine = machine();
    machine.written = Err("No space left on device".to_owned());
    assert_eq!(resign(&mut machine), Err("No space left on device".to_owned()));
    assert_eq!(count(&machine, SignQuery::Sign), 0);
}

#[test]
fn a_command_that_cannot_run_is_told_and_its_file_stays() {
    let mut machine = machine();
    machine.signed = Err("No such file or directory".to_owned());
    assert_eq!(resign(&mut machine), Err("No such file or directory".to_owned()));
    assert_eq!(count(&machine, SignQuery::RemoveEntitlements), 0);
}

#[test]
fn a_command_that_fails_is_told_by_its_error_output() {
    let mut machine = machine();
    machine.signed = Ok((false, b"\n resource fork \xffnot allowed \n".to_vec()));
    assert_eq!(resign(&mut machine), Err("resource fork \u{fffd}not allowed".to_owned()));
    assert_eq!(count(&machine, SignQuery::RemoveEntitlements), 1);
    assert_eq!(count(&machine, SignQuery::Entitlements), 0);
}

#[test]
fn a_signature_without_the_entitlement_is_a_failure() {
    let mut machine = machine();
    machine.signed = Ok((true, "signed, d\u{e9}j\u{e0} vu ".as_bytes().to_vec()));
    machine.entitlements = Ok((b"<dict/>".to_vec(), Vec::new()));
    assert_eq!(resign(&mut machine), Err("signed, d\u{e9}j\u{e0} vu".to_owned()));
    machine.entitlements = Err("No such file or directory".to_owned());
    assert_eq!(resign(&mut machine), Err("signed, d\u{e9}j\u{e0} vu".to_owned()));
}

#[test]
fn answers_of_the_wrong_kind_are_failures() {
    let mut resign = Resign::resign();
    while let Some(_) = resign.query() {
        resign = resign.answer(SignAnswer::Done);
    }
    assert_eq!(resign.result(), Err(String::new()));
}

#[test]
fn the_entitlements_are_those_to_be_looked_for() {
    assert!(ENTITLEMENTS.contains("<key>com.apple.security.get-task-allow</key><true/>"));
    assert_eq!(ENTITLEMENTS.lines().count(), 3);
    assert!(is_resigned(output(true, ENTITLEMENTS.as_bytes(), b"")));
    assert_eq!(entitlements_file(4711), "fps-unlocker-4711.plist");
}
