use batch_exec::invoker::preview::DetachedPreview;
use batch_exec::invoker::Invoker;
use batch_exec::proc::par::{QueueState, Step};
use batch_exec::proc::trace::{answer, gate, prompt, Gate};

fn job(n: usize) -> DetachedPreview {
    let inv = Invoker::new("%", vec!["true".to_string(), "%".to_string()]);
    let text = format!("{}", n);
    let preview = inv.preview(&[text.as_str()]);
    preview.detach()
}

fn reply(text: &[u8]) -> [u8; 16] {
    let mut buf = [0u8; 16];
    buf[..text.len()].copy_from_slice(text);
    buf
}

#[test]
fn queue_hands_out_in_order_of_arrival() {
    let mut q = QueueState::new();
    assert_eq!(q.waiting(), 0);
    assert!(matches!(q.next(), Step::Wait));
    q.submit(job(1));
    q.submit(job(2));
    assert_eq!(q.waiting(), 2);
    match q.next() {
        Step::Run(j) => assert_eq!(j.args()[1], "1"),
        _ => panic!("a job waits"),
    }
    match q.next() {
        Step::Run(j) => assert_eq!(j.args()[1], "2"),
        _ => panic!("a job waits"),
    }
    assert!(matches!(q.next(), Step::Wait));
    q.finish();
    assert!(matches!(q.next(), Step::Exit));
    assert!(matches!(q.next(), Step::Exit));
}

#[test]
fn closed_empty_queue_lets_workers_stop_at_once() {
    let mut q = QueueState::new();
    q.finish();
    for _ in 0..4 {
        assert!(matches!(q.next(), Step::Exit));
    }
    assert_eq!(q.waiting(), 0);
}

#[test]
fn closed_queue_still_hands_out_what_waits() {
    let mut q = QueueState::new();
    q.submit(job(7));
    q.finish();
    assert!(matches!(q.next(), Step::Run(_)));
    assert!(matches!(q.next(), Step::Exit));
}

#[test]
fn four_workers_run_a_hundred_jobs_once_each() {
    let mut q = QueueState::new();
    for n in 0..100 {
        q.submit(job(n));
    }
    q.finish();
    let mut runs = vec![0usize; 100];
    let mut alive = [true; 4];
    let mut order = Vec::new();
    while alive.iter().any(|a| *a) {
        for w in 0..4 {
            if !alive[w] {
                continue;
            }
            match q.next() {
                Step::Run(j) => {
                    let n: usize = j.args()[1].parse().unwrap();
                    runs[n] += 1;
                    order.push(n);
                }
                Step::Wait => panic!("a closed queue never asks to wait"),
                Step::Exit => alive[w] = false,
            }
        }
    }
    assert!(runs.iter().all(|r| *r == 1));
    assert_eq!(order, (0..100).collect::<Vec<usize>>());
    assert!(alive.iter().all(|a| !*a));
}

#[test]
fn drain_gives_every_job_once() {
    let mut q = QueueState::new();
    for n in 0..5 {
        q.submit(job(n));
    }
    let out = q.drain();
    let got: Vec<&str> = out.iter().map(|j| j.args()[1].as_str()).collect();
    assert_eq!(got, vec!["0", "1", "2", "3", "4"]);
    assert_eq!(q.waiting(), 0);
    assert!(matches!(q.next(), Step::Wait));
}

#[test]
fn answers_are_read_whatever_their_case() {
    assert_eq!(answer(&reply(b"yes\n")), Some(true));
    assert_eq!(answer(&reply(b"y\n")), Some(true));
    assert_eq!(answer(&reply(b"TRUE\n")), Some(true));
    assert_eq!(answer(&reply(b"t")), Some(true));
    assert_eq!(answer(&reply(b"Yes")), Some(true));
    assert_eq!(answer(&reply(b"no\n")), Some(false));
    assert_eq!(answer(&reply(b"N\n")), Some(false));
    assert_eq!(answer(&reply(b"False\n")), Some(false));
    assert_eq!(answer(&reply(b"f\n")), Some(false));
}

#[test]
fn other_replies_are_no_answer() {
    assert_eq!(answer(&reply(b"\n")), None);
    assert_eq!(answer(&reply(b"")), None);
    assert_eq!(answer(&reply(b"maybe\n")), None);
    assert_eq!(answer(&reply(b"yes \n")), None);
    assert_eq!(answer(&reply(b"yes\n\n")), None);
    assert_eq!(answer(&reply(b"ye\xffs\n")), None);
    assert_eq!(answer(b"yes"), None);
    assert_eq!(answer(&[b'y'; 16]), None);
    assert_eq!(answer(&[]), None);
    assert_eq!(answer(b"y\0es\0"), Some(true));
    assert_eq!(answer(b"\0yes"), None);
}

#[test]
fn gate_follows_the_answer() {
    assert_eq!(gate(&reply(b"yes\n")), Gate::Run);
    assert_eq!(gate(&reply(b"n\n")), Gate::Skip);
    assert_eq!(gate(&reply(b"what\n")), Gate::Again);
    assert_eq!(gate(b"yes"), Gate::Again);
}

#[test]
fn prompt_quotes_the_command_line() {
    let inv = Invoker::new("%", vec!["rm".to_string(), "%".to_string()]);
    assert_eq!(prompt(&inv.preview(&["a.txt"])), "exec 'rm a.txt'? ".to_string());
}
