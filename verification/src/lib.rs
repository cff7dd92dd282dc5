//! A local chatbot that answers questions about your own files.
//!
//! This is the part that decides: what may be read and what may be answered
//! ([`governance`]), which files are worth reading ([`files`]), how their text is cut
//! ([`chunking`]) and indexed ([`indexing`]), what a question brings up ([`knowledge`]), and
//! what the two front ends say and do about it ([`chat`], [`repl`], [`web`]). Disk, network
//! and terminal belong to the program around it.

pub mod chat;
pub mod chunking;
pub mod command;
pub mod error;
pub mod evidence;
pub mod files;
pub mod governance;
pub mod indexing;
pub mod knowledge;
pub mod ollama;
pub mod order;
pub mod parts;
pub mod paths;
pub mod repl;
pub mod seams;
pub mod single;
pub mod startup;
pub mod text;
pub mod tree;
pub mod web;
