//! What can go wrong with a request to the broker.

use vstd::prelude::*;

use crate::envelope::TaskStatus;
use crate::ids::{hyphenated_chars, hyphenated_text};

verus! {

/// Why a request was refused or could not be carried out.
#[derive(Debug)]
pub enum BrokerError {
    TaskNotFound(u128),
    InvalidStatus { task_id: u128, expected: String, actual: TaskStatus },
    Storage(String),
    InvalidResumeKey(u128),
    Internal(String),
}

/// What an error stands for.
pub enum ErrorView {
    TaskNotFound(u128),
    InvalidStatus { task_id: u128, expected: Seq<char>, actual: TaskStatus },
    Storage(Seq<char>),
    InvalidResumeKey(u128),
    Internal(Seq<char>),
}

impl View for BrokerError {
    type V = ErrorView;

    open spec fn view(&self) -> ErrorView {
        match self {
            BrokerError::TaskNotFound(id) => ErrorView::TaskNotFound(*id),
            BrokerError::InvalidStatus { task_id, expected, actual } => ErrorView::InvalidStatus {
                task_id: *task_id,
                expected: expected@,
                actual: *actual,
            },
            BrokerError::Storage(reason) => ErrorView::Storage(reason@),
            BrokerError::InvalidResumeKey(id) => ErrorView::InvalidResumeKey(*id),
            BrokerError::Internal(reason) => ErrorView::Internal(reason@),
        }
    }
}

impl ErrorView {
    /// The message that tells a client of the error.
    pub open spec fn message_chars(self) -> Seq<char> {
        match self {
            ErrorView::TaskNotFound(id) => "Task "@ + hyphenated_chars(id) + " not found"@,
            ErrorView::InvalidStatus { task_id, expected, actual } => "Task "@ + hyphenated_chars(
                task_id,
            ) + " is not in "@ + expected + " state (current: "@ + actual.name_chars() + ")"@,
            ErrorView::Storage(reason) => "Storage error: "@ + reason,
            ErrorView::InvalidResumeKey(id) => "Invalid or missing resume key for task "@
                + hyphenated_chars(id),
            ErrorView::Internal(reason) => "Internal error: "@ + reason,
        }
    }

    /// The HTTP status that answers a request that met the error.
    pub open spec fn http_status(self) -> u16 {
        match self {
            ErrorView::TaskNotFound(_) => 404,
            ErrorView::InvalidStatus { .. } => 400,
            ErrorView::InvalidResumeKey(_) => 403,
            _ => 500,
        }
    }
}

impl BrokerError {
    /// The message that tells a client of the error.
    pub fn message(&self) -> (s: String)
        ensures
            s@ == self@.message_chars(),
    {
        match self {
            BrokerError::TaskNotFound(id) => {
                let mut s = "Task ".to_owned();
                s.append(hyphenated_text(*id).as_str());
                s.append(" not found");
                s
            },
            BrokerError::InvalidStatus { task_id, expected, actual } => {
                let mut s = "Task ".to_owned();
                s.append(hyphenated_text(*task_id).as_str());
                s.append(" is not in ");
                s.append(expected.as_str());
                s.append(" state (current: ");
                s.append(actual.name());
                s.append(")");
                s
            },
            BrokerError::Storage(reason) => {
                let mut s = "Storage error: ".to_owned();
                s.append(reason.as_str());
                s
            },
            BrokerError::InvalidResumeKey(id) => {
                let mut s = "Invalid or missing resume key for task ".to_owned();
                s.append(hyphenated_text(*id).as_str());
                s
            },
            BrokerError::Internal(reason) => {
                let mut s = "Internal error: ".to_owned();
                s.append(reason.as_str());
                s
            },
        }
    }

    /// The HTTP status that answers a request that met the error.
    pub fn http_status(&self) -> (r: u16)
        ensures
            r == self@.http_status(),
    {
        match self {
            BrokerError::TaskNotFound(_) => 404,
            BrokerError::InvalidStatus { .. } => 400,
            BrokerError::InvalidResumeKey(_) => 403,
            _ => 500,
        }
    }
}

/// What a client is told of each error: in words, with the task and the reason, and by
/// the status of the answer.
pub proof fn law_errors_are_told(
    id: u128,
    expected: Seq<char>,
    actual: TaskStatus,
    reason: Seq<char>,
)
    ensures
        ErrorView::TaskNotFound(id).message_chars() == "Task "@ + hyphenated_chars(id)
            + " not found"@,
        (ErrorView::InvalidStatus { task_id: id, expected, actual }).message_chars() == "Task "@
            + hyphenated_chars(id) + " is not in "@ + expected + " state (current: "@ + (
        match actual {
            TaskStatus::Pending => "Pending"@,
            TaskStatus::Processing => "Processing"@,
            TaskStatus::Paused => "Paused"@,
            TaskStatus::Completed => "Completed"@,
            TaskStatus::Failed => "Failed"@,
        }) + ")"@,
        ErrorView::Storage(reason).message_chars() == "Storage error: "@ + reason,
        ErrorView::InvalidResumeKey(id).message_chars()
            == "Invalid or missing resume key for task "@ + hyphenated_chars(id),
        ErrorView::Internal(reason).message_chars() == "Internal error: "@ + reason,
        ErrorView::TaskNotFound(id).http_status() == 404,
        (ErrorView::InvalidStatus { task_id: id, expected, actual }).http_status() == 400,
        ErrorView::InvalidResumeKey(id).http_status() == 403,
        ErrorView::Storage(reason).http_status() == 500,
        ErrorView::Internal(reason).http_status() == 500,
{
}

/// What an error stands for is all that it holds.
pub proof fn law_error_view(e: BrokerError)
    ensures
        e matches BrokerError::TaskNotFound(id) ==> e@ == ErrorView::TaskNotFound(id),
        e matches BrokerError::InvalidStatus { task_id, expected, actual } ==> e@ == (
        ErrorView::InvalidStatus { task_id, expected: expected@, actual }),
        e matches BrokerError::Storage(reason) ==> e@ == ErrorView::Storage(reason@),
        e matches BrokerError::InvalidResumeKey(id) ==> e@ == ErrorView::InvalidResumeKey(id),
        e matches BrokerError::Internal(reason) ==> e@ == ErrorView::Internal(reason@),
{
}

} // verus!
