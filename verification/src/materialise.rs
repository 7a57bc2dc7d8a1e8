//! What has to be done on disk to bring listings back as files.

use crate::decode::unarchive_to_listings;
use crate::error::{DecafError, Failure};
use crate::format::decoded;
use crate::listing::{has_directory_bit, is_directory, views, Listing, ListingView};
use crate::relpath::{contained, path_is_contained};
use vstd::prelude::*;
use vstd::utf8::*;

verus! {

/// One step of bringing an archive back to disk. Paths are relative to
/// the directory that receives the files.
#[derive(Debug, Clone, PartialEq, Eq)]
pub enum FileAction {
    /// Create the directory at `path`, with all its ancestors.
    CreateDirectory { path: String },
    /// Create the ancestors of `path`, create or truncate the file, write
    /// `content` and set the mode bits.
    WriteFile { path: String, permissions: u32, content: Vec<u8> },
}

/// A step as a mathematical value.
pub enum Step {
    CreateDirectory { path: Seq<char> },
    WriteFile { path: Seq<char>, permissions: u32, content: Seq<u8> },
}

impl View for FileAction {
    type V = Step;

    open spec fn view(&self) -> Step {
        match self {
            FileAction::CreateDirectory { path } => Step::CreateDirectory { path: path@ },
            FileAction::WriteFile { path, permissions, content } => Step::WriteFile {
                path: path@,
                permissions: *permissions,
                content: content@,
            },
        }
    }
}

/// The steps of a vector of actions, in order.
pub open spec fn steps(actions: Seq<FileAction>) -> Seq<Step> {
    actions.map_values(|action: FileAction| action@)
}

/// The step that a listing asks for: a bare directory is created, a file
/// is written with its content and mode bits.
pub open spec fn step_of(listing: ListingView) -> Step {
    if is_directory(listing.permissions) {
        Step::CreateDirectory { path: listing.path }
    } else {
        Step::WriteFile {
            path: listing.path,
            permissions: listing.permissions,
            content: listing.content,
        }
    }
}

/// The steps that listings ask for, one each and in their order.
pub open spec fn steps_of(listings: Seq<ListingView>) -> Seq<Step> {
    listings.map_values(|listing: ListingView| step_of(listing))
}

/// Turns a listing into the step that brings it back.
pub fn file_action(listing: Listing) -> (action: FileAction)
    ensures
        action@ == step_of(listing@),
{
    if has_directory_bit(listing.permissions) {
        FileAction::CreateDirectory { path: listing.path }
    } else {
        FileAction::WriteFile {
            path: listing.path,
            permissions: listing.permissions,
            content: listing.content,
        }
    }
}

/// Turns listings into the steps that bring them back, in their order.
pub fn create_files(listings: Vec<Listing>) -> (actions: Vec<FileAction>)
    ensures
        steps(actions@) == steps_of(views(listings@)),
{
    let ghost all = listings@;
    let mut actions: Vec<FileAction> = Vec::new();
    for listing in it: listings.into_iter()
        invariant
            it.seq() == all,
            actions@.len() == it.index(),
            forall|j: int| 0 <= j < it.index() ==> (#[trigger] actions@[j])@ == step_of(all[j]@),
    {
        let action = file_action(listing);
        actions.push(action);
    }
    actions
}

/// The path of a step.
pub open spec fn step_path(step: Step) -> Seq<char> {
    match step {
        Step::CreateDirectory { path } => path,
        Step::WriteFile { path, .. } => path,
    }
}

/// The step stays below the directory that receives the files: its path
/// is contained.
pub open spec fn step_contained(step: Step) -> bool {
    contained(encode_utf8(step_path(step)))
}

/// Every step stays below the directory that receives the files.
pub open spec fn all_contained(steps: Seq<Step>) -> bool {
    forall|i: int| 0 <= i < steps.len() ==> step_contained(#[trigger] steps[i])
}

impl FileAction {
    /// Whether the step stays below the directory that receives the
    /// files.
    pub fn is_contained(&self) -> (b: bool)
        ensures
            b == step_contained(self@),
    {
        match self {
            FileAction::CreateDirectory { path } => path_is_contained(path.as_str().as_bytes()),
            FileAction::WriteFile { path, .. } => path_is_contained(path.as_str().as_bytes()),
        }
    }

    /// The step itself if it stays below the directory that receives the
    /// files, and `InvalidPath` if it does not.
    pub fn checked(self) -> (outcome: Result<FileAction, DecafError>)
        ensures
            match outcome {
                Ok(action) => action == self && step_contained(self@),
                Err(error) => error == DecafError::InvalidPath && !step_contained(self@),
            },
    {
        if self.is_contained() {
            Ok(self)
        } else {
            Err(DecafError::InvalidPath)
        }
    }
}

/// The steps themselves if every one of them stays below the directory
/// that receives the files, and `InvalidPath` if one does not.
pub fn contained_steps(actions: Vec<FileAction>) -> (outcome: Result<Vec<FileAction>, DecafError>)
    ensures
        match outcome {
            Ok(kept) => kept == actions && all_contained(steps(actions@)),
            Err(error) => error == DecafError::InvalidPath && !all_contained(steps(actions@)),
        },
{
    let count: usize = actions.len();
    let mut i: usize = 0;
    while i < count
        invariant
            i <= count,
            count == actions.len(),
            forall|j: int| 0 <= j < i ==> step_contained(#[trigger] steps(actions@)[j]),
        decreases count - i,
    {
        assert(steps(actions@)[i as int] == actions@[i as int]@);
        if !actions[i].is_contained() {
            return Err(DecafError::InvalidPath);
        }
        i = i + 1;
    }
    Ok(actions)
}

/// Steps or a failure as a mathematical value.
pub open spec fn steps_outcome(outcome: Result<Vec<FileAction>, DecafError>) -> Result<
    Seq<Step>,
    Failure,
> {
    match outcome {
        Ok(actions) => Ok(steps(actions@)),
        Err(error) => Err(error@),
    }
}

/// The steps that bring back what `input` decodes to, or the failure of
/// decoding it.
pub open spec fn decoded_steps(input: Seq<u8>) -> Result<Seq<Step>, Failure> {
    match decoded(input) {
        Ok(listings) => Ok(steps_of(listings)),
        Err(failure) => Err(failure),
    }
}

/// Decodes an archive image and says what has to be done on disk to
/// bring its listings back, in the order of the listing table.
pub fn unarchive_from_reader(input: &[u8]) -> (outcome: Result<Vec<FileAction>, DecafError>)
    ensures
        steps_outcome(outcome) == decoded_steps(input@),
{
    match unarchive_to_listings(input) {
        Err(error) => Err(error),
        Ok(listings) => Ok(create_files(listings)),
    }
}

} // verus!
