use dslab::placement::{
    Allocation, AllocationVerdict, BestFit, FirstFit, HostInfo, ResourcePoolState, VMPlacementAlgorithm, WorstFit,
};
use dslab::placement_config::{
    config_arg_values, parse_placement_algorithm, ConfigArgError, PlacementParseError, VmPlacementAlgorithmType,
};

fn host(id: u32, cpu_available: u32, memory_available: u64) -> HostInfo {
    HostInfo { id, cpu_total: 64, memory_total: 256, cpu_available, memory_available }
}

fn pool(hosts: &[HostInfo]) -> ResourcePoolState {
    let mut p = ResourcePoolState::new();
    for h in hosts {
        p.add_host(*h);
    }
    p
}

fn request(cpu: u32, memory: u64) -> Allocation {
    Allocation { id: 1, cpu_usage: cpu, memory_usage: memory }
}

#[test]
fn pool_lists_hosts_by_increasing_id() {
    let p = pool(&[host(5, 1, 1), host(2, 1, 1), host(9, 1, 1), host(2, 3, 3)]);
    assert_eq!(p.get_hosts_list(), vec![2, 5, 9]);
    assert_eq!(p.get_available_cpu(2), 3);
    assert_eq!(p.get_available_cpu(9), 1);
}

#[test]
fn can_allocate_reports_each_verdict() {
    let p = pool(&[host(1, 4, 16), host(2, 8, 4)]);
    assert_eq!(p.can_allocate(&request(4, 16), 1), AllocationVerdict::Success);
    assert_eq!(p.can_allocate(&request(5, 1), 1), AllocationVerdict::NotEnoughCPU);
    assert_eq!(p.can_allocate(&request(8, 8), 2), AllocationVerdict::NotEnoughMemory);
    assert_eq!(p.can_allocate(&request(9, 99), 2), AllocationVerdict::NotEnoughCPU);
    assert_eq!(p.can_allocate(&request(1, 1), 3), AllocationVerdict::HostNotFound);
}

#[test]
fn first_fit_takes_lowest_suitable_id() {
    let p = pool(&[host(3, 16, 64), host(1, 2, 64), host(2, 8, 64)]);
    assert_eq!(FirstFit::new().select_host(&request(4, 8), &p), Some(2));
    assert_eq!(FirstFit::new().select_host(&request(1, 8), &p), Some(1));
    assert_eq!(FirstFit::new().select_host(&request(32, 8), &p), None);
    assert_eq!(FirstFit::new().select_host(&request(1, 1), &ResourcePoolState::new()), None);
}

#[test]
fn best_fit_takes_least_free_cpu() {
    let p = pool(&[host(1, 16, 64), host(2, 6, 64), host(3, 5, 1), host(4, 6, 64)]);
    assert_eq!(BestFit::new().select_host(&request(4, 8), &p), Some(2));
    assert_eq!(BestFit::new().select_host(&request(7, 8), &p), Some(1));
    assert_eq!(BestFit::new().select_host(&request(17, 8), &p), None);
}

#[test]
fn best_fit_takes_a_host_with_maximal_free_cpu() {
    let p = pool(&[host(1, u32::MAX, 64)]);
    assert_eq!(BestFit::new().select_host(&request(1, 1), &p), Some(1));
}

#[test]
fn worst_fit_takes_most_free_cpu() {
    let p = pool(&[host(1, 6, 64), host(2, 16, 1), host(3, 12, 64), host(4, 12, 64)]);
    assert_eq!(WorstFit::new().select_host(&request(4, 8), &p), Some(3));
    assert_eq!(WorstFit::new().select_host(&request(4, 1), &p), Some(2));
    assert_eq!(WorstFit::new().select_host(&request(13, 1), &p), Some(2));
    assert_eq!(WorstFit::new().select_host(&request(20, 1), &p), None);
}

#[test]
fn every_policy_places_when_some_host_has_room() {
    let p = pool(&[host(1, 0, 64), host(2, 0, 64)]);
    assert_eq!(WorstFit::new().select_host(&request(0, 1), &p), Some(1));
    assert_eq!(BestFit::new().select_host(&request(0, 1), &p), Some(1));
    assert_eq!(FirstFit::new().select_host(&request(0, 1), &p), Some(1));
    assert_eq!(WorstFit::new().select_host(&request(1, 1), &p), None);
}

#[test]
fn policy_names_are_exact() {
    assert_eq!(VmPlacementAlgorithmType::from_name("FirstFit"), Some(VmPlacementAlgorithmType::FirstFit));
    assert_eq!(VmPlacementAlgorithmType::from_name("BestFit"), Some(VmPlacementAlgorithmType::BestFit));
    assert_eq!(VmPlacementAlgorithmType::from_name("WorstFit"), Some(VmPlacementAlgorithmType::WorstFit));
    assert_eq!(
        VmPlacementAlgorithmType::from_name("BestFitThreshold"),
        Some(VmPlacementAlgorithmType::BestFitThreshold)
    );
    assert_eq!(VmPlacementAlgorithmType::from_name("bestfit"), None);
    assert_eq!(VmPlacementAlgorithmType::from_name("BestFit "), None);
    assert_eq!(VmPlacementAlgorithmType::from_name(""), None);
}

#[test]
fn parse_description_with_arguments() {
    let cfg = parse_placement_algorithm("BestFitThreshold[threshold=0.8]".to_string()).unwrap();
    assert_eq!(cfg.algorithm, VmPlacementAlgorithmType::BestFitThreshold);
    assert_eq!(cfg.args, "threshold=0.8");
}

#[test]
fn parse_description_drops_quotes_and_closing_brackets() {
    let cfg = parse_placement_algorithm("\"FirstFit\"[]".to_string()).unwrap();
    assert_eq!(cfg.algorithm, VmPlacementAlgorithmType::FirstFit);
    assert_eq!(cfg.args, "");
    let cfg = parse_placement_algorithm("WorstFit[a=\"1\"][b=2]".to_string()).unwrap();
    assert_eq!(cfg.algorithm, VmPlacementAlgorithmType::WorstFit);
    assert_eq!(cfg.args, "a=1");
}

#[test]
fn parse_description_errors() {
    assert_eq!(
        parse_placement_algorithm("BestFit".to_string()).err(),
        Some(PlacementParseError::MissingArguments)
    );
    assert_eq!(
        parse_placement_algorithm("Random[x]".to_string()).err(),
        Some(PlacementParseError::UnknownAlgorithm)
    );
    assert_eq!(parse_placement_algorithm("".to_string()).err(), Some(PlacementParseError::UnknownAlgorithm));
}

#[test]
fn config_values_list_every_entry_for_key_in_order() {
    let strings = |v: &[&str]| v.iter().map(|s| s.to_string()).collect::<Vec<String>>();
    assert_eq!(config_arg_values("threshold=0.5", "threshold"), Ok(strings(&["0.5"])));
    assert_eq!(
        config_arg_values("a=1,threshold=0.5,threshold=0.7", "threshold"),
        Ok(strings(&["0.5", "0.7"]))
    );
    assert_eq!(config_arg_values("a=1,b=2", "threshold"), Ok(strings(&[])));
    assert_eq!(config_arg_values("", "threshold"), Ok(strings(&[])));
    assert_eq!(config_arg_values("threshold=0.5=9", "threshold"), Ok(strings(&["0.5"])));
    assert_eq!(config_arg_values("threshold=x,threshold=0.5", "threshold"), Ok(strings(&["x", "0.5"])));
    assert_eq!(config_arg_values("threshold,threshold=1", "threshold"), Err(ConfigArgError::MissingValue));
    assert_eq!(config_arg_values("threshold=1,threshold", "threshold"), Err(ConfigArgError::MissingValue));
}

#[test]
fn best_fit_choice_has_no_more_free_cpu_than_worst_fit_choice() {
    let p = pool(&[host(4, 9, 64), host(7, 3, 64), host(8, 12, 2), host(11, 5, 64)]);
    let r = request(2, 8);
    let best = BestFit::new().select_host(&r, &p).unwrap();
    let worst = WorstFit::new().select_host(&r, &p).unwrap();
    let first = FirstFit::new().select_host(&r, &p).unwrap();
    assert_eq!((first, best, worst), (4, 7, 4));
    assert!(p.get_available_cpu(best) <= p.get_available_cpu(worst));
    assert!(first <= best && first <= worst);
}

#[test]
fn written_descriptions_read_back() {
    for (name, t) in [
        ("FirstFit", VmPlacementAlgorithmType::FirstFit),
        ("BestFit", VmPlacementAlgorithmType::BestFit),
        ("WorstFit", VmPlacementAlgorithmType::WorstFit),
        ("BestFitThreshold", VmPlacementAlgorithmType::BestFitThreshold),
    ] {
        for args in ["", "threshold=0.5", "a=1,b=2"] {
            let cfg = parse_placement_algorithm(format!("{}[{}]", name, args)).unwrap();
            assert_eq!(cfg.algorithm, t);
            assert_eq!(cfg.args, args);
        }
    }
}

#[test]
fn policy_names_parse_with_from_str() {
    assert_eq!("WorstFit".parse::<VmPlacementAlgorithmType>(), Ok(VmPlacementAlgorithmType::WorstFit));
    assert_eq!("Worst".parse::<VmPlacementAlgorithmType>(), Err(PlacementParseError::UnknownAlgorithm));
}
