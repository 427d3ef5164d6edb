//! Relational experiments as verified algorithms: each module models one
//! relational program over plain values and proves what it computes.
pub mod text;
pub mod csv;
pub mod graph;
pub mod gc;
pub mod garbage_collector;
pub mod dom;
pub mod build_system;
pub mod automata;
pub mod fsa;
pub mod knowledge_graph;
pub mod crdt;
pub mod sets;
pub mod delta;
pub mod package_manager;
pub mod expert_system;
pub mod life;
pub mod cellular;
pub mod cellular_automata;
pub mod cellular_automaton;
pub mod event_bus;
pub mod petri_net;
pub mod genetic_algorithm;
pub mod blockchain;
pub mod mrp;
pub mod apriori;
pub mod circuit;
pub mod logic_circuit;
pub mod parser;
pub mod enigma;
pub mod relation;
pub mod differ;
pub mod exporter;
pub mod importer;
pub mod pivot;
pub mod audit;
pub mod image;
pub mod mock;
pub mod knn;
pub mod automl;
pub mod ecs;
