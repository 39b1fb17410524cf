//! The one-shot worker around the grid search: what it answers to a request,
//! and with which status it ends.
//!
//! Reading the input and decoding it are not done here. Their result comes in
//! as an [`Intake`], and what is to be written and reported goes out as an
//! [`Outcome`].
//!
//! A response holds a length or nothing, and no more: an invalid request and
//! a goal that is out of reach are answered alike. They are told apart by the
//! broken rule, which the outcome carries beside the response.

use crate::maze::{
    bfs, cell, check, is_answer, lemma_answer_unique, validate, ValidationError,
};
use vstd::prelude::*;

verus! {

/// A request: a grid, and the two cells to join.
#[derive(Debug)]
pub struct MazeReq {
    /// The rows of the grid; `0` is a free cell, anything else a wall.
    pub grid: Vec<Vec<u8>>,
    /// Row and column of the start.
    pub start: (usize, usize),
    /// Row and column of the goal.
    pub goal: (usize, usize),
}

/// A response: the length of a shortest walk, where there is one.
#[derive(Clone, Copy, Debug, PartialEq, Eq, Structural)]
pub struct MazeResp {
    /// The number of moves, or nothing where the request was invalid or the
    /// goal cannot be reached.
    pub length: Option<usize>,
}

/// What came of reading and decoding the input.
#[derive(Debug)]
pub enum Intake {
    /// The input could not be read to its end.
    Unreadable,
    /// The input was read but is not a request.
    Malformed,
    /// The input is this request.
    Request(MazeReq),
}

/// What the worker does with an input.
#[derive(Clone, Copy, Debug, PartialEq, Eq, Structural)]
pub struct Outcome {
    /// The response to write.
    pub response: MazeResp,
    /// The rule that the request broke, to be reported apart from the
    /// response.
    pub rejection: Option<ValidationError>,
    /// The status to end with: 0 after a request was answered, 1 otherwise.
    pub status: i32,
}

/// A request as a mathematical value.
pub struct Request {
    /// The cells, row by row.
    pub grid: Seq<Seq<u8>>,
    /// Row and column of the start.
    pub start: (int, int),
    /// Row and column of the goal.
    pub goal: (int, int),
}

/// An intake as a mathematical value.
pub enum Input {
    /// The input could not be read to its end.
    Unreadable,
    /// The input was read but is not a request.
    Malformed,
    /// The input is this request.
    Request(Request),
}

impl View for MazeReq {
    type V = Request;

    open spec fn view(&self) -> Request {
        Request { grid: self.grid.deep_view(), start: cell(self.start), goal: cell(self.goal) }
    }
}

impl View for Intake {
    type V = Input;

    open spec fn view(&self) -> Input {
        match self {
            Intake::Unreadable => Input::Unreadable,
            Intake::Malformed => Input::Malformed,
            Intake::Request(req) => Input::Request(req@),
        }
    }
}

/// Whether `response` is what `req` is owed.
pub open spec fn is_response(req: Request, response: MazeResp) -> bool {
    is_answer(req.grid, req.start, req.goal, response.length)
}

/// The rule that `req` breaks, if any.
pub open spec fn rejection_of(req: Request) -> Option<ValidationError> {
    match check(req.grid, req.start, req.goal) {
        Ok(_) => None,
        Err(e) => Some(e),
    }
}

/// Whether `outcome` is what the worker owes to `input`. An input that was
/// not read or not understood gets an empty response and status 1. A request
/// gets its answer and status 0, also where the answer is empty because the
/// request is invalid or the goal out of reach; an invalid request has its
/// broken rule reported.
pub open spec fn is_outcome(input: Input, outcome: Outcome) -> bool {
    match input {
        Input::Unreadable | Input::Malformed => {
            &&& outcome.response.length is None
            &&& outcome.rejection is None
            &&& outcome.status == 1
        },
        Input::Request(req) => {
            &&& is_response(req, outcome.response)
            &&& outcome.rejection == rejection_of(req)
            &&& outcome.status == 0
        },
    }
}

/// Answers a request.
pub fn solve(req: &MazeReq) -> (response: MazeResp)
    ensures
        is_response(req@, response),
{
    MazeResp { length: bfs(&req.grid, req.start, req.goal) }
}

/// Decides what to write and how to end, for whatever the input came to.
pub fn respond(intake: &Intake) -> (outcome: Outcome)
    ensures
        is_outcome(intake@, outcome),
{
    match intake {
        Intake::Unreadable | Intake::Malformed => Outcome {
            response: MazeResp { length: None },
            rejection: None,
            status: 1,
        },
        Intake::Request(req) => {
            let rejection = match validate(&req.grid, req.start, req.goal) {
                Ok(_) => None,
                Err(e) => Some(e),
            };
            Outcome { response: solve(req), rejection, status: 0 }
        },
    }
}

/// The status the process ends with, once it is known whether the response
/// could be encoded: the outcome's own status if it could, 1 if not.
pub fn closing_status(outcome: &Outcome, encoded: bool) -> (status: i32)
    ensures
        status == if encoded {
            outcome.status
        } else {
            1
        },
{
    if encoded {
        outcome.status
    } else {
        1
    }
}

/// The same input always has the same outcome: two outcomes that are both
/// owed to one input are equal.
pub proof fn lemma_outcome_unique(input: Input, one: Outcome, other: Outcome)
    requires
        is_outcome(input, one),
        is_outcome(input, other),
    ensures
        one == other,
{
    match input {
        Input::Request(req) => {
            lemma_answer_unique(
                req.grid,
                req.start,
                req.goal,
                one.response.length,
                other.response.length,
            );
        },
        _ => {},
    }
}

} // verus!
