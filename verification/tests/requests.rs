//! Completed queries, log levels, and the plugin's registration.

use mikrotik_api::plugin::{ConfigValues, MikrotikPlugin, Query};
use mikrotik_api::smartdns::{
    DnsRequest, DnsResult, LogLevel, Plugin, SmartdnsOperations, DNS_T_A, DNS_T_AAAA,
};

fn accept(group: &str, domain: &str, qtype: i32) -> Option<Query> {
    Query::accept(group.to_string(), domain.to_string(), qtype)
}

fn result(ip: &str, ttl: u32, qtype: i32) -> Option<DnsResult> {
    Some(DnsResult { ip: ip.to_string(), addr_type: qtype, ttl })
}

#[test]
fn query_of_a_group_becomes_a_job() {
    let query = accept("proxy", "example.com", DNS_T_A).unwrap();
    let job = query.resolve(result("93.184.216.34", 60, DNS_T_A)).unwrap();
    assert_eq!(job.group, "proxy");
    assert_eq!(job.domain, "example.com");
    assert_eq!(job.ip, "93.184.216.34");
    assert_eq!(job.ttl, 60);
    assert_eq!(job.qtype, DNS_T_A);
}

#[test]
fn default_group_is_left_out() {
    assert!(accept("default", "example.com", DNS_T_A).is_none());
    assert!(accept("", "example.com", DNS_T_A).is_none());
    assert!(accept("Default", "example.com", DNS_T_A).is_some());
}

#[test]
fn only_address_queries_are_accepted() {
    assert!(accept("g", "d", DNS_T_AAAA).is_some());
    for qtype in [0, 2, 5, 12, 27, 29, 65, -1] {
        assert!(accept("g", "d", qtype).is_none());
    }
}

#[test]
fn accepted_query_keeps_what_was_asked() {
    let query = accept("proxy", "example.com", DNS_T_AAAA).unwrap();
    assert_eq!(query.get_group(), "proxy");
    assert_eq!(query.get_domain(), "example.com");
    assert_eq!(query.get_qtype(), DNS_T_AAAA);
}

struct Asked {
    group: &'static str,
    qtype: u32,
    readable: bool,
}

impl DnsRequest for Asked {
    fn get_group_name(&self) -> String {
        assert!(self.readable);
        self.group.to_string()
    }

    fn get_domain(&self) -> String {
        assert!(self.readable);
        "example.com".to_string()
    }

    fn get_qtype(&self) -> u32 {
        assert!(self.readable);
        self.qtype
    }
}

fn asked(group: &'static str, qtype: u32, readable: bool) -> Box<dyn DnsRequest> {
    Box::new(Asked { group, qtype, readable })
}

#[test]
fn completed_query_is_judged_by_the_request() {
    let plugin = MikrotikPlugin::new();
    let query = plugin.query_complete(&*asked("proxy", 28, true)).unwrap();
    assert_eq!(query.get_group(), "proxy");
    assert_eq!(query.get_domain(), "example.com");
    assert_eq!(query.get_qtype(), DNS_T_AAAA);
    assert!(plugin.query_complete(&*asked("default", 1, true)).is_none());
    assert!(plugin.query_complete(&*asked("proxy", 5, true)).is_none());
    assert!(plugin.query_complete(&*asked("proxy", u32::MAX, true)).is_none());
}

#[test]
fn stop_is_final() {
    let mut plugin = MikrotikPlugin::new();
    assert!(plugin.accept("g".to_string(), "d".to_string(), DNS_T_A).is_some());
    plugin.stop();
    assert!(plugin.accept("g".to_string(), "d".to_string(), DNS_T_A).is_none());
    assert!(plugin.query_complete(&*asked("proxy", 1, false)).is_none());
    assert!(plugin.start(settings("1.2.3.4", "admin", "secret")).ok().unwrap().is_some());
    plugin.stop();
    assert!(plugin.query_complete(&*asked("proxy", 1, false)).is_none());
}

fn settings(address: &str, username: &str, password: &str) -> ConfigValues {
    ConfigValues {
        address: Some(address.to_string()),
        username: Some(username.to_string()),
        password: Some(password.to_string()),
        ssl: None,
    }
}

#[test]
fn first_success_starts_the_one_worker() {
    let mut plugin = MikrotikPlugin::new();
    for _ in 0..2 {
        let error = plugin.start(settings("", "admin", "secret")).err().unwrap();
        assert_eq!(error, "mikrotik-api.address is not configured");
    }
    assert!(plugin.check_start(&settings("[fe80::1]:1", "admin", "secret")));
    let target = plugin.start(settings("[fe80::1]:1", "admin", "secret")).ok().unwrap().unwrap();
    assert_eq!(target.host, "fe80::1");
    assert_eq!(target.port, 1);
    assert_eq!(target.username, "admin");
    assert_eq!(target.password, "secret");
    assert!(plugin.start(settings("1.2.3.4", "admin", "secret")).ok().unwrap().is_none());
    assert!(plugin.start(settings("1.2.3.4", "admin", "")).is_err());
    assert!(plugin.start(settings("1.2.3.4", "admin", "secret")).ok().unwrap().is_none());
}

#[test]
fn start_notices_addresses_that_cannot_be_split() {
    let mut plugin = MikrotikPlugin::new();
    assert!(!plugin.check_start(&settings("]:80", "admin", "secret")));
    assert!(plugin.check_start(&settings("]:80", "", "secret")));
    assert!(plugin.start(settings("]:80", "", "secret")).is_err());
    let rest = ConfigValues {
        address: None,
        username: Some("admin".to_string()),
        password: None,
        ssl: None,
    };
    assert!(!plugin.check_start(&rest));
}

#[test]
fn names_that_cannot_be_looked_up_are_left_out() {
    assert!(accept("g", "a\0b", DNS_T_A).is_none());
    assert!(accept("g\0", "a", DNS_T_A).is_none());
    assert!(accept("g", "", DNS_T_A).is_some());
}

#[test]
fn unusable_results_give_no_job() {
    for ip in ["127.0.0.1", "0.0.0.0", "::1", "nonsense"] {
        let query = accept("g", "d", DNS_T_A).unwrap();
        assert!(query.resolve(result(ip, 60, DNS_T_A)).is_none());
    }
    assert!(accept("g", "d", DNS_T_A).unwrap().resolve(None).is_none());
}

#[test]
fn log_levels_have_numbers() {
    let levels = [
        LogLevel::DEBUG,
        LogLevel::INFO,
        LogLevel::NOTICE,
        LogLevel::WARN,
        LogLevel::ERROR,
        LogLevel::FATAL,
        LogLevel::OFF,
    ];
    let mut number: u32 = 0;
    for level in levels {
        assert_eq!(level.code(), number);
        assert_eq!(LogLevel::try_from(number), Ok(level));
        number += 1;
    }
    assert_eq!(LogLevel::try_from(7), Err(()));
    assert_eq!(LogLevel::try_from(u32::MAX), Err(()));
}

struct Recorder {
    inits: usize,
}

impl SmartdnsOperations for Recorder {
    fn server_query_complete(&self, request: Box<dyn DnsRequest>) {
        assert_eq!(request.get_qtype(), 1);
    }

    fn server_init(&mut self, args: &Vec<String>) -> Result<(), String> {
        self.inits += 1;
        if args.len() == 2 && self.inits == 1 {
            Ok(())
        } else {
            Err(args.join(","))
        }
    }

    fn server_exit(&mut self) {}
}

#[test]
fn plugin_keeps_arguments_and_operations() {
    let mut plugin = Plugin::new();
    assert!(plugin.get_args().is_empty());
    assert!(plugin.operation().is_none());
    assert!(plugin.operation_mut().is_none());
    plugin.set_args(vec!["a".to_string(), "b".to_string()]);
    assert_eq!(plugin.get_args(), &vec!["a".to_string(), "b".to_string()]);
    plugin.set_operation(Box::new(Recorder { inits: 0 }));
    assert!(plugin.operation().is_some());
    let args = plugin.get_args().clone();
    assert_eq!(plugin.operation_mut().unwrap().server_init(&args), Ok(()));
    assert_eq!(plugin.operation_mut().unwrap().server_init(&args), Err("a,b".to_string()));
    plugin.clear_operation();
    assert!(plugin.operation().is_none());
    assert_eq!(plugin.get_args().len(), 2);
}
