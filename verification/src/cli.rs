//! The rules of the command line: which arguments are accepted and which
//! weight every destination gets.
use vstd::prelude::*;
use crate::source::Source;

verus! {

/// What is wrong with a command line, or with the run that followed it.
#[derive(Debug, Clone, PartialEq, Eq)]
pub enum Error {
    /// The source is also in destinations.
    FileDuplicate,
    /// The quantity of destinations is smaller as of distributions.
    MoreDistributionsAsDestinations { destinations_len: usize, distributions_len: usize },
    /// Couldn't read from source.
    Source,
    /// Couldn't write to destination.
    Destination,
    /// Problem occurred during splitting.
    Split,
}

/// The arguments of the command line.
#[derive(Debug)]
pub struct Cli {
    /// A factor to multiply the grouping size of the distribution.
    pub line_factor: usize,
    /// The file which should be splitted.
    pub source: Source,
    /// A list of destinations for the splitted contents.
    pub destinations: Vec<String>,
    /// Defines how many lines are assigned to a destination. The distributions have to be in the
    /// same order as the destinations. It defaults to 1.
    pub distributions: Vec<usize>,
}

/// A destination file and the number of lines it takes per round.
#[derive(Debug)]
pub struct Destination {
    pub assigned_lines: usize,
    pub file: String,
}

/// Whether two paths are equal by `==` of `std::path::Path`.
pub uninterp spec fn same_path(left: Seq<char>, right: Seq<char>) -> bool;

/// Compares two paths with `==` of `std::path::Path`, which compares them
/// component by component. The contract gives the answer the name
/// `same_path` and claims nothing else of it.
#[verifier::external_body]
fn paths_equal(left: &str, right: &str) -> (equal: bool)
    ensures
        equal == same_path(left@, right@),
{
    std::path::Path::new(left) == std::path::Path::new(right)
}

/// Calls `BoolExt::or_err` of `bool_ext`, which turns `true` into `Ok(())`
/// and `false` into `Err(err)`.
#[verifier::external_body]
fn or_err<E>(condition: bool, err: E) -> (result: Result<(), E>)
    ensures
        result == (if condition {
            Ok::<(), E>(())
        } else {
            Err::<(), E>(err)
        }),
{
    bool_ext::BoolExt::or_err(condition, err)
}

/// Whether `path` is the same path as the destination with index `index`.
pub open spec fn is_destination(path: Seq<char>, destinations: Seq<String>, index: int) -> bool {
    0 <= index < destinations.len() && same_path(path, destinations[index]@)
}

/// Whether no destination is the same path as `path`.
fn differs_from_all(path: &String, destinations: &Vec<String>) -> (distinct: bool)
    ensures
        distinct == !exists|index: int| is_destination(path@, destinations@, index),
{
    let mut index: usize = 0;
    while index < destinations.len()
        invariant
            index <= destinations@.len(),
            forall|earlier: int|
                0 <= earlier < index ==> !is_destination(path@, destinations@, earlier),
        decreases destinations@.len() - index,
    {
        if paths_equal(path.as_str(), destinations[index].as_str()) {
            assert(is_destination(path@, destinations@, index as int));
            return false;
        }
        index += 1;
    }
    true
}

impl Cli {
    /// Whether the source is a file that is also a destination.
    pub open spec fn source_in_destinations(&self) -> bool {
        self.source matches Source::PathBuf(path) && exists|index: int|
            is_destination(path@, self.destinations@, index)
    }

    /// The verdict on the arguments: the first rule that they break, if any.
    pub open spec fn verdict(&self) -> Result<(), Error> {
        if self.source_in_destinations() {
            Err(Error::FileDuplicate)
        } else if self.destinations@.len() < self.distributions@.len() {
            Err(
                Error::MoreDistributionsAsDestinations {
                    destinations_len: self.destinations@.len() as usize,
                    distributions_len: self.distributions@.len() as usize,
                },
            )
        } else {
            Ok(())
        }
    }

    /// The distribution of the destination with index `index`: the one given
    /// for it, or 1 if none was.
    pub open spec fn distribution(&self, index: int) -> usize {
        if 0 <= index < self.distributions@.len() {
            self.distributions@[index]
        } else {
            1
        }
    }

    /// The weight of the destination with index `index`: its distribution
    /// times the line factor.
    pub open spec fn weight(&self, index: int) -> nat {
        (self.line_factor * self.distribution(index)) as nat
    }

    /// Checks the arguments.
    ///
    /// # Errors
    ///
    /// [`Error::FileDuplicate`] if the source is a file that is also one of
    /// the destinations. Else [`Error::MoreDistributionsAsDestinations`] if
    /// there are more distributions than destinations.
    pub fn validate(&self) -> (result: Result<(), Error>)
        ensures
            result == self.verdict(),
    {
        if let Source::PathBuf(source) = &self.source {
            or_err(differs_from_all(source, &self.destinations), Error::FileDuplicate)?;
        }
        let (destinations_len, distributions_len) = (
            self.destinations.len(),
            self.distributions.len(),
        );
        or_err(
            destinations_len >= distributions_len,
            Error::MoreDistributionsAsDestinations { destinations_len, distributions_len },
        )?;

        Ok(())
    }

    /// The distribution of the destination with index `index`.
    pub fn get_distribution(&self, index: usize) -> (distribution: usize)
        ensures
            distribution == self.distribution(index as int),
    {
        if index < self.distributions.len() {
            self.distributions[index]
        } else {
            1
        }
    }

    /// The weight of the destination with index `index`, or `None` if it
    /// does not fit in `usize`.
    pub fn assigned_lines(&self, index: usize) -> (weight: Option<usize>)
        ensures
            weight matches Some(lines) ==> lines == self.weight(index as int),
            weight is Some <==> self.weight(index as int) <= usize::MAX,
    {
        self.line_factor.checked_mul(self.get_distribution(index))
    }

    /// The destinations with their weights, in the order of the command line.
    pub fn new_files(&self) -> (files: Vec<Destination>)
        requires
            forall|index: int|
                0 <= index < self.destinations@.len() ==> #[trigger] self.weight(index)
                    <= usize::MAX,
        ensures
            files@.len() == self.destinations@.len(),
            forall|index: int|
                0 <= index < files@.len() ==> {
                    &&& (#[trigger] files@[index]).assigned_lines == self.weight(index)
                    &&& files@[index].file@ == self.destinations@[index]@
                },
    {
        let mut files: Vec<Destination> = Vec::new();
        let mut index: usize = 0;
        while index < self.destinations.len()
            invariant
                index <= self.destinations@.len(),
                files@.len() == index,
                forall|index: int|
                    0 <= index < self.destinations@.len() ==> #[trigger] self.weight(index)
                        <= usize::MAX,
                forall|earlier: int|
                    0 <= earlier < index ==> {
                        &&& (#[trigger] files@[earlier]).assigned_lines == self.weight(earlier)
                        &&& files@[earlier].file@ == self.destinations@[earlier]@
                    },
            decreases self.destinations@.len() - index,
        {
            assert(self.weight(index as int) <= usize::MAX);
            let assigned_lines = self.line_factor * self.get_distribution(index);
            files.push(Destination { assigned_lines, file: self.destinations[index].clone() });
            index += 1;
        }
        files
    }
}

} // verus!
