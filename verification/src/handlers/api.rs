pub mod job_results;
