use std::num::NonZeroUsize;
use zsplit::cli::{Cli, Error};
use zsplit::destination::Destination;
use zsplit::source::Source;
use zsplit::split::{checked_ring_size, map_line_destinations};

fn empty_cli() -> Cli {
    Cli {
        line_factor: non_zero_usize(1),
        source: Source::PathBuf(String::new()),
        destinations: vec![String::new(), String::new(), String::new()],
        distributions: Vec::new(),
    }
}

fn non_zero_usize(num: usize) -> usize {
    NonZeroUsize::new(num).unwrap().get()
}

#[test]
fn invalid_source_in_destinations() {
    let cli = empty_cli();

    assert_eq!(cli.validate(), Err(Error::FileDuplicate));
}

#[test]
fn valid_source_not_in_destinations() {
    let mut cli = empty_cli();
    cli.source = Source::PathBuf(String::from("test.txt"));

    assert_eq!(cli.validate(), Ok(()));
}

#[test]
fn valid_source_stdin() {
    let mut cli = empty_cli();
    cli.source = Source::StdIn;

    assert_eq!(cli.validate(), Ok(()));
}

#[test]
fn valid_balanced_distributions_destinations() {
    let mut cli = empty_cli();
    cli.source = Source::StdIn;
    cli.distributions = vec![non_zero_usize(3), non_zero_usize(3), non_zero_usize(3)];

    assert_eq!(cli.validate(), Ok(()));
}

#[test]
fn invalid_more_distributions_than_destinations() {
    let mut cli = empty_cli();
    cli.destinations = Vec::new();
    cli.distributions = vec![non_zero_usize(3), non_zero_usize(3)];

    assert_eq!(
        cli.validate(),
        Err(Error::MoreDistributionsAsDestinations {
            destinations_len: 0,
            distributions_len: 2
        })
    );
}

#[test]
fn cli_test_invalid_source_in_destinations() {
    let cli = empty_cli();

    assert_eq!(cli.validate().unwrap_err(), Error::FileDuplicate);
}

#[test]
fn cli_test_valid_source_not_in_destinations() {
    let mut cli = empty_cli();
    cli.source = Source::PathBuf(String::from("test.txt"));

    cli.validate().unwrap();
}

#[test]
fn cli_test_valid_source_stdin() {
    let mut cli = empty_cli();
    cli.source = Source::StdIn;

    cli.validate().unwrap();
}

#[test]
fn cli_test_valid_balanced_distributions_destinations() {
    let mut cli = empty_cli();
    cli.source = Source::StdIn;
    cli.distributions = vec![non_zero_usize(3), non_zero_usize(3), non_zero_usize(3)];

    cli.validate().unwrap();
}

#[test]
fn cli_test_invalid_more_distributions_than_destinations() {
    let mut cli = empty_cli();
    cli.destinations = Vec::new();
    cli.distributions = vec![non_zero_usize(3), non_zero_usize(3)];

    assert_eq!(
        cli.validate().unwrap_err(),
        Error::MoreDistributionsAsDestinations {
            destinations_len: 0,
            distributions_len: 2
        }
    );
}

#[test]
fn default_distribution() {
    let destinations = empty_cli().new_files();

    assert_eq!(destinations.len(), 3);
    assert!(destinations
        .iter()
        .all(|destination| destination.assigned_lines == 1));
}

#[test]
fn default_distribution_with_line_factor() {
    let mut cli = empty_cli();
    cli.line_factor = non_zero_usize(2);

    let destinations = cli.new_files();

    assert_eq!(destinations.len(), 3);
    assert!(destinations
        .iter()
        .all(|destination| destination.assigned_lines == 2));
}

#[test]
fn partial_distribution() {
    let mut cli = empty_cli();
    cli.distributions = vec![non_zero_usize(3), non_zero_usize(3)];

    let destinations = cli.new_files();

    assert_eq!(destinations.len(), 3);
    assert_eq!(destinations[0].assigned_lines, 3);
    assert_eq!(destinations[1].assigned_lines, 3);
    assert_eq!(destinations[2].assigned_lines, 1);
}

#[test]
fn partial_distribution_with_line_factor() {
    let mut cli = empty_cli();
    cli.distributions = vec![non_zero_usize(3), non_zero_usize(3)];
    cli.line_factor = non_zero_usize(2);

    let destinations = cli.new_files();

    assert_eq!(destinations.len(), 3);
    assert_eq!(destinations[0].assigned_lines, 6);
    assert_eq!(destinations[1].assigned_lines, 6);
    assert_eq!(destinations[2].assigned_lines, 2);
}

#[test]
fn source_written_differently_is_still_a_duplicate() {
    let mut cli = empty_cli();
    cli.source = Source::PathBuf(String::from("out//a.txt"));
    cli.destinations = vec![String::from("out/b.txt"), String::from("out/a.txt")];

    assert_eq!(cli.validate(), Err(Error::FileDuplicate));
}

#[test]
fn duplicate_is_reported_before_the_count() {
    let mut cli = empty_cli();
    cli.distributions = vec![1, 2, 3, 4];

    assert_eq!(cli.validate(), Err(Error::FileDuplicate));
}

#[test]
fn stdin_is_never_a_duplicate() {
    let mut cli = empty_cli();
    cli.source = Source::StdIn;
    cli.destinations = vec![String::from("-"), String::from("-")];

    assert_eq!(cli.validate(), Ok(()));
}

#[test]
fn missing_distribution_is_one() {
    let mut cli = empty_cli();
    cli.distributions = vec![5, 7];

    assert_eq!(cli.get_distribution(0), 5);
    assert_eq!(cli.get_distribution(1), 7);
    assert_eq!(cli.get_distribution(2), 1);
    assert_eq!(cli.get_distribution(usize::MAX), 1);
}

#[test]
fn assigned_lines_is_factor_times_distribution() {
    let mut cli = empty_cli();
    cli.line_factor = 4;
    cli.distributions = vec![5];

    assert_eq!(cli.assigned_lines(0), Some(20));
    assert_eq!(cli.assigned_lines(1), Some(4));
}

#[test]
fn assigned_lines_that_do_not_fit_are_none() {
    let mut cli = empty_cli();
    cli.line_factor = 2;
    cli.distributions = vec![usize::MAX / 2, usize::MAX / 2 + 1];

    assert_eq!(cli.assigned_lines(0), Some(usize::MAX - 1));
    assert_eq!(cli.assigned_lines(1), None);
}

#[test]
fn new_files_keep_path_and_order() {
    let mut cli = empty_cli();
    cli.destinations = vec![String::from("a"), String::from("b")];
    cli.distributions = vec![2];

    let files = cli.new_files();

    assert_eq!(files[0].file, "a");
    assert_eq!(files[0].assigned_lines, 2);
    assert_eq!(files[1].file, "b");
    assert_eq!(files[1].assigned_lines, 1);
}

#[test]
fn weights_one_two_three_doubled() {
    let mut cli = empty_cli();
    cli.distributions = vec![1, 2, 3];
    cli.line_factor = 2;

    let destinations: Vec<Destination<Vec<u8>>> = cli
        .new_files()
        .iter()
        .map(|file| Destination::buffer_with_lines(file.assigned_lines))
        .collect();

    assert_eq!(
        destinations
            .iter()
            .map(|destination| destination.assigned_lines)
            .collect::<Vec<usize>>(),
        [2, 4, 6]
    );
    assert_eq!(checked_ring_size(&destinations), Some(12));
    assert_eq!(map_line_destinations(&destinations).len(), 12);
}

#[test]
fn cli_test_default_distribution() {
    let destinations = empty_cli().new_files();

    assert_eq!(destinations.len(), 3);
    assert!(destinations
        .iter()
        .all(|destination| destination.assigned_lines == 1));
}

#[test]
fn cli_test_default_distribution_with_line_factor() {
    let mut cli = empty_cli();
    cli.line_factor = non_zero_usize(2);

    let destinations = cli.new_files();

    assert_eq!(destinations.len(), 3);
    assert!(destinations
        .iter()
        .all(|destination| destination.assigned_lines == 2));
}

#[test]
fn cli_test_partial_distribution() {
    let mut cli = empty_cli();
    cli.distributions = vec![non_zero_usize(3), non_zero_usize(3)];

    let destinations = cli.new_files();

    assert_eq!(destinations.len(), 3);
    assert_eq!(destinations[0].assigned_lines, 3);
    assert_eq!(destinations[1].assigned_lines, 3);
    assert_eq!(destinations[2].assigned_lines, 1);
}

#[test]
fn cli_test_partial_distribution_with_line_factor() {
    let mut cli = empty_cli();
    cli.distributions = vec![non_zero_usize(3), non_zero_usize(3)];
    cli.line_factor = non_zero_usize(2);

    let destinations = cli.new_files();

    assert_eq!(destinations.len(), 3);
    assert_eq!(destinations[0].assigned_lines, 6);
    assert_eq!(destinations[1].assigned_lines, 6);
    assert_eq!(destinations[2].assigned_lines, 2);
}
