use batch_exec::cli::{low_bits, Cli, Fault};
use batch_exec::collector::Limit;
use batch_exec::proc::{exit_code, process, Log, Run, URun};

fn base() -> Cli {
    Cli {
        null_separated: false,
        args: None,
        join: false,
        lines: None,
        parallel: None,
        tty: false,
        ask: false,
        trace: false,
        pattern: "%".to_string(),
        command: vec!["echo".to_string(), "%".to_string()],
    }
}

#[test]
fn valid_settings_have_no_message() {
    assert_eq!(base().validation_message(), None);
    assert_eq!(base().check(), None);
    let mut one = base();
    one.parallel = Some(1);
    one.tty = true;
    one.ask = true;
    one.join = true;
    assert_eq!(one.validation_message(), None);
}

#[test]
fn join_with_lines_is_refused() {
    let mut cli = base();
    cli.join = true;
    cli.lines = Some(3);
    assert_eq!(cli.check(), Some(Fault::JoinWithLines));
    assert_eq!(
        cli.validation_message(),
        Some("arbitrary join and join on a certain number of lines may not both be specified")
    );
}

#[test]
fn zero_lines_is_refused() {
    let mut cli = base();
    cli.lines = Some(0);
    assert_eq!(cli.check(), Some(Fault::ZeroLines));
    assert_eq!(cli.validation_message(), Some("Lines may not be zero"));
}

#[test]
fn parallel_excludes_tty_ask_and_join() {
    let mut cli = base();
    cli.parallel = Some(4);
    cli.tty = true;
    cli.ask = true;
    cli.join = true;
    assert_eq!(cli.validation_message(), Some("parallel jobs may not be interactive"));
    cli.tty = false;
    assert_eq!(
        cli.validation_message(),
        Some("parallel jobs may not ask before execution")
    );
    cli.ask = false;
    assert_eq!(cli.validation_message(), Some("one job may not be parallel"));
    cli.join = false;
    assert_eq!(cli.validation_message(), None);
    cli.parallel = Some(0);
    cli.tty = true;
    cli.ask = true;
    cli.join = true;
    assert_eq!(cli.check(), None);
    assert_eq!(cli.validation_message(), None);
}

#[test]
fn command_must_be_there_and_not_start_with_pattern() {
    let mut cli = base();
    cli.command = vec![];
    assert_eq!(
        cli.validation_message(),
        Some("a command must be specified to execute")
    );
    cli.command = vec!["%".to_string(), "x".to_string()];
    assert_eq!(
        cli.validation_message(),
        Some("a command may not start with the pattern")
    );
    cli.pattern = "{}".to_string();
    assert_eq!(cli.validation_message(), None);
}

#[test]
fn is_parallel_only_for_counts_other_than_one() {
    let mut cli = base();
    assert!(!cli.is_parallel());
    cli.parallel = Some(1);
    assert!(!cli.is_parallel());
    cli.parallel = Some(2);
    assert!(cli.is_parallel());
    cli.parallel = Some(0);
    assert!(!cli.is_parallel());
    cli.parallel = Some(65535);
    assert!(cli.is_parallel());
}

#[test]
fn with_parallel_sets_only_a_missing_count() {
    assert_eq!(base().with_parallel(8).parallel, Some(8));
    assert_eq!(base().with_parallel(65536 + 3).parallel, Some(3));
    let mut cli = base();
    cli.parallel = Some(2);
    assert_eq!(cli.with_parallel(8).parallel, Some(2));
    let mut cli = base();
    cli.ask = true;
    assert_eq!(cli.with_parallel(8).parallel, None);
    let mut cli = base();
    cli.tty = true;
    assert_eq!(cli.with_parallel(8).parallel, None);
    let mut cli = base();
    cli.join = true;
    assert_eq!(cli.with_parallel(8).parallel, None);
    assert_eq!(low_bits(70000), 4464);
}

#[test]
fn fill_parallel_takes_the_processor_count() {
    let filled = base().fill_parallel();
    assert!(filled.parallel.is_some());
    assert_eq!(filled.command, vec!["echo".to_string(), "%".to_string()]);
    assert_eq!(filled.pattern, "%".to_string());
    let mut cli = base();
    cli.join = true;
    assert_eq!(cli.fill_parallel().parallel, None);
    let mut cli = base();
    cli.parallel = Some(3);
    assert_eq!(cli.fill_parallel().parallel, Some(3));
}

#[test]
fn plan_follows_the_settings() {
    assert_eq!(process(&base()), Log::Nop(URun::Base(Run)));
    let mut cli = base();
    cli.trace = true;
    assert_eq!(process(&cli), Log::Trace(URun::Base(Run)));
    cli.ask = true;
    assert_eq!(process(&cli), Log::Ask(URun::Base(Run)));
    cli.tty = true;
    assert_eq!(process(&cli), Log::Ask(URun::Inter));
    cli.parallel = Some(1);
    assert_eq!(process(&cli), Log::Ask(URun::Inter));
    assert_eq!(*process(&cli).inner(), URun::Inter);
    let mut cli = base();
    cli.parallel = Some(4);
    assert_eq!(process(&cli), Log::Nop(URun::Parallel(4)));
    cli.tty = true;
    assert_eq!(process(&cli), Log::Nop(URun::Parallel(4)));
    cli.parallel = Some(0);
    assert_eq!(process(&cli), Log::Nop(URun::Inter));
    cli.tty = false;
    assert_eq!(process(&cli), Log::Nop(URun::Base(Run)));
    cli.parallel = Some(2);
    assert_eq!(process(&cli), Log::Nop(URun::Parallel(2)));
}

#[test]
fn exit_codes_are_cut_to_eight_bits() {
    assert_eq!(exit_code(Some(0)), 0);
    assert_eq!(exit_code(Some(3)), 3);
    assert_eq!(exit_code(Some(255)), 255);
    assert_eq!(exit_code(Some(256)), 0);
    assert_eq!(exit_code(Some(-1)), 255);
    assert_eq!(exit_code(None), 15);
}

#[test]
fn limit_follows_join_lines_and_slots() {
    let mut cli = base();
    assert_eq!(cli.limit(2), Limit::Limit(2));
    assert_eq!(cli.limit(0), Limit::Unlimited);
    cli.lines = Some(5);
    assert_eq!(cli.limit(2), Limit::Limit(5));
    cli.lines = Some(0);
    assert_eq!(cli.limit(2), Limit::Unlimited);
    cli.lines = None;
    cli.join = true;
    assert_eq!(cli.limit(2), Limit::Unlimited);
}

#[test]
fn delimiter_is_line_end_or_null() {
    let mut cli = base();
    assert_eq!(cli.delimiter(), 10);
    cli.null_separated = true;
    assert_eq!(cli.delimiter(), 0);
}
