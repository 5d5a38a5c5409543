use rust_zip::util::{
    parse_threads, process_args, worker_count, ArgError, Config, CHUNK_SIZE, DEFAULT_MAX_THREADS,
};

#[test]
fn test_valid_compression() {
    let args = vec![
        "prog".to_string(),
        "-c".to_string(),
        "-o".to_string(),
        "out".to_string(),
        "input".to_string(),
    ];
    assert_eq!(
        process_args(args),
        Ok(Config {
            input_file: "input".to_string(),
            output_file: "out".to_string(),
            compress: true,
            decompress: false,
            max_threads: DEFAULT_MAX_THREADS,
        })
    );
}

#[test]
fn test_valid_decompression() {
    let args = vec![
        "prog".to_string(),
        "-x".to_string(),
        "-o".to_string(),
        "out".to_string(),
        "input".to_string(),
    ];
    assert_eq!(
        process_args(args),
        Ok(Config {
            input_file: "input".to_string(),
            output_file: "out".to_string(),
            compress: false,
            decompress: true,
            max_threads: DEFAULT_MAX_THREADS,
        })
    );
}

#[test]
fn test_help() {
    let args = vec!["prog".to_string(), "-h".to_string()];
    assert_eq!(process_args(args), Err(ArgError::Help));
}

#[test]
fn test_missing_output_arg_flag_only() {
    let args = vec!["prog".to_string(), "-c".to_string(), "-o".to_string()];
    assert_eq!(process_args(args), Err(ArgError::MissingOutputArg));
}

#[test]
fn test_missing_output_arg_value() {
    let args = vec![
        "prog".to_string(),
        "-c".to_string(),
        "input".to_string(),
        "-o".to_string(),
    ];
    assert_eq!(process_args(args), Err(ArgError::MissingOutputArg));
}

#[test]
fn test_conflicting_modes() {
    let args = vec![
        "prog".to_string(),
        "-c".to_string(),
        "-x".to_string(),
        "-o".to_string(),
        "out".to_string(),
        "input".to_string(),
    ];
    assert_eq!(process_args(args), Err(ArgError::ConflictingModes));
}

#[test]
fn test_no_mode() {
    let args = vec![
        "prog".to_string(),
        "-o".to_string(),
        "out".to_string(),
        "input".to_string(),
    ];
    assert_eq!(process_args(args), Err(ArgError::NoModeSpecified));
}

#[test]
fn test_missing_input() {
    let args = vec![
        "prog".to_string(),
        "-c".to_string(),
        "-o".to_string(),
        "out".to_string(),
    ];
    assert_eq!(process_args(args), Err(ArgError::MissingInput));
}

#[test]
fn test_repeated_positional_args() {
    let args = vec![
        "prog".to_string(),
        "-c".to_string(),
        "-o".to_string(),
        "out".to_string(),
        "input1".to_string(),
        "input2".to_string(),
    ];
    assert_eq!(
        process_args(args),
        Ok(Config {
            input_file: "input2".to_string(),
            output_file: "out".to_string(),
            compress: true,
            decompress: false,
            max_threads: DEFAULT_MAX_THREADS,
        })
    );
}

#[test]
fn help_wins_over_later_errors() {
    let args = vec!["prog".to_string(), "-c".to_string(), "-x".to_string(), "-h".to_string(), "-o".to_string()];
    assert_eq!(process_args(args), Err(ArgError::Help));
}

#[test]
fn output_flag_takes_next_argument_even_a_flag() {
    let args = vec!["prog".to_string(), "-o".to_string(), "-c".to_string(), "-x".to_string(), "in".to_string()];
    assert_eq!(
        process_args(args),
        Ok(Config {
            input_file: "in".to_string(),
            output_file: "-c".to_string(),
            compress: false,
            decompress: true,
            max_threads: DEFAULT_MAX_THREADS,
        })
    );
}

#[test]
fn program_name_alone_has_no_mode() {
    assert_eq!(process_args(vec!["prog".to_string()]), Err(ArgError::NoModeSpecified));
    assert_eq!(process_args(vec![]), Err(ArgError::NoModeSpecified));
}

#[test]
fn workers_bounded_by_chunks_and_limit() {
    let chunk = CHUNK_SIZE as u64;
    assert_eq!(worker_count(0, 4), 0);
    assert_eq!(worker_count(1, 4), 1);
    assert_eq!(worker_count(chunk, 4), 1);
    assert_eq!(worker_count(chunk + 1, 4), 2);
    assert_eq!(worker_count(10 * chunk, 4), 4);
    assert_eq!(worker_count(10 * chunk, 0), 0);
}

#[test]
fn threads_flag_sets_the_limit() {
    let args = vec!["prog".to_string(), "-c".to_string(), "-t".to_string(), "4".to_string(), "-o".to_string(), "out".to_string(), "input".to_string()];
    assert_eq!(
        process_args(args),
        Ok(Config {
            input_file: "input".to_string(),
            output_file: "out".to_string(),
            compress: true,
            decompress: false,
            max_threads: 4,
        })
    );
    let args = vec!["prog".to_string(), "-x".to_string(), "-t".to_string(), "3".to_string(), "-o".to_string(), "out".to_string(), "in".to_string(), "-t".to_string(), "12".to_string()];
    assert_eq!(process_args(args).unwrap().max_threads, 12);
}

#[test]
fn threads_flag_errors() {
    assert_eq!(process_args(vec!["prog".to_string(), "-c".to_string(), "-o".to_string(), "out".to_string(), "input".to_string(), "-t".to_string()]), Err(ArgError::MissingThreadsArg));
    assert_eq!(process_args(vec!["prog".to_string(), "-c".to_string(), "-t".to_string(), "abc".to_string(), "-o".to_string(), "out".to_string(), "input".to_string()]), Err(ArgError::InvalidThreadsArg));
    assert_eq!(process_args(vec!["prog".to_string(), "-c".to_string(), "-t".to_string(), "0".to_string(), "-o".to_string(), "out".to_string(), "input".to_string()]), Err(ArgError::InvalidThreadsArg));
    assert_eq!(process_args(vec!["prog".to_string(), "-c".to_string(), "-t".to_string(), "-h".to_string(), "-o".to_string(), "out".to_string(), "input".to_string()]), Err(ArgError::InvalidThreadsArg));
}

#[test]
fn thread_counts_parsed() {
    assert_eq!(parse_threads(&"7".to_string()), Some(7));
    assert_eq!(parse_threads(&"+16".to_string()), Some(16));
    assert_eq!(parse_threads(&"007".to_string()), Some(7));
    assert_eq!(parse_threads(&"0".to_string()), None);
    assert_eq!(parse_threads(&"".to_string()), None);
    assert_eq!(parse_threads(&"+".to_string()), None);
    assert_eq!(parse_threads(&"-3".to_string()), None);
    assert_eq!(parse_threads(&"4x".to_string()), None);
    assert_eq!(parse_threads(&"99999999999999999999999".to_string()), None);
    assert_eq!(parse_threads(&usize::MAX.to_string()), Some(usize::MAX));
}
