//! Verified algorithms for puzzles on grids, graphs and sequences.
//!
//! The heart of the crate is a search for the cheapest route across a grid
//! of costs under limits on the length of straight runs:
//!
//! - [`search`] holds the search itself, [`search::solve`];
//! - [`bucket_queue`] holds the priority queue that the search runs on, a
//!   circular array of buckets for priorities that stay near the least one;
//! - [`route`] says what a route is and what it costs, and [`laws`] proves
//!   what follows for the cheapest one;
//! - [`streak`] shows that a search by single steps with a count of the
//!   steps taken in one direction looks at the same routes, and [`plain`]
//!   that with runs of any length the search finds the cheapest way of all;
//! - [`distance`] holds the table of the best costs known during a search.
//!
//! The other modules hold smaller pieces, each for a puzzle of its own:
//! numbering and following beams ([`beam_graph`]), points of bricks
//! ([`bricks`]), names of digits ([`calibration`]), games of cubes
//! ([`cubes`]), tiles enclosed by a loop ([`enclosure`]), distances between
//! galaxies ([`galaxies`]), kinds of hands of cards ([`hands`]), hash maps
//! of texts ([`hashed`]), maps of trails ([`hike`]), numbers for labels
//! ([`labels`]), areas of polygons ([`lagoon`]), a hash of strings
//! ([`lens`]), mirror lines ([`mirrors`]), reading systems of modules
//! ([`modules`]), remainders and labels of nodes ([`network`]), decimal
//! numbers ([`numbers`]), continuing a sequence ([`oasis`]), loops of pipes
//! ([`pipes`]), rolling rocks ([`platform`]), periods of sequences and
//! pulses between modules ([`pulses`]), races ([`race`]), reachability in
//! graphs ([`reach`]), symbols ([`schematic`]), sketches of pipes
//! ([`sketch`]), broken springs ([`springs`]), walks in small graphs
//! ([`trails`]), ways into the nodes of a graph ([`wiring`]) and ratings
//! ([`workflow`]).
//!
//! Every function states what it returns in its `ensures` clause, over the
//! specification functions that stand beside it, and is proved to meet it.
//! The few functions that call into another crate are marked
//! `external_body`: their contracts say what that crate documents, and are
//! taken on trust.

pub mod beam_graph;
pub mod bricks;
pub mod bucket_queue;
pub mod calibration;
pub mod cubes;
pub mod distance;
pub mod enclosure;
pub mod galaxies;
pub mod hands;
pub mod hashed;
pub mod hike;
pub mod labels;
pub mod lagoon;
pub mod laws;
pub mod lens;
pub mod mirrors;
pub mod modules;
pub mod network;
pub mod numbers;
pub mod oasis;
pub mod pipes;
pub mod plain;
pub mod platform;
pub mod pulses;
pub mod race;
pub mod reach;
pub mod route;
pub mod schematic;
pub mod search;
pub mod sketch;
pub mod springs;
pub mod streak;
pub mod trails;
pub mod wiring;
pub mod workflow;
