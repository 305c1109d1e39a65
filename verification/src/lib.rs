//! Interview-style data structures and algorithms with machine-checked contracts.
use vstd::prelude::*;

pub mod adt_idioms;
pub mod api_client;
pub mod async_mini;
pub mod backtracking;
pub mod binary_search;
pub mod binary_tree;
pub mod bounded_queue;
pub mod bump_allocator;
pub mod consistent_hash;
pub mod dp;
pub mod drills;
pub mod graph;
pub mod graph_bfs;
pub mod graph_dfs;
pub mod graph_map;
pub mod graph_dijkstra;
pub mod graph_topology;
pub mod http_request;
pub mod linked_list;
pub mod lru_cache;
pub mod lru_cache_easy;
pub mod merge_intervals;
pub mod min_stack;
pub mod nary_tree;
pub mod parallel;
pub mod retry;
pub mod reverse_string;
pub mod ring_buffer;
pub mod semaphore;
pub mod shadowing;
pub mod sharded_cache;
pub mod singly_linked_list;
pub mod sliding_window;
pub mod smart_pointers;
pub mod sort;
pub mod state_machine;
pub mod thread_pool_v3;
pub mod thread_pool_v4;
pub mod threads;
pub mod three_sum;
pub mod token_bucket;
pub mod top_k_frequent;
pub mod trie;
pub mod two_sum;
pub mod worker_pool;
pub mod valid_parentheses;
pub mod text;
pub mod time_span;

verus! {

} // verus!
