use coredns_k8s_sync::config::{Config, ExternalSource};
use coredns_k8s_sync::dns_record::DnsRecord;
use coredns_k8s_sync::dns_record_collector::{
    DnsRecordCollector, DnsRecordFetcher, SourceFetchError,
};
use coredns_k8s_sync::file_writer::{
    fragment_file_path, merge_source_contents, render_dns_records, render_fragments, MergeError,
    SourceFile,
};

const DOMAIN_NAME: &str = "example.com";
const PADDING: usize = 5;

fn generate_test_dns_records() -> Vec<DnsRecord> {
    let mut dns_record_a = DnsRecord {
        fqdn: "a.example.com".to_string(),
        ip: "127.0.0.2".to_string(),
        ..Default::default()
    };
    dns_record_a.set_a_record(DOMAIN_NAME, PADDING);

    let mut dns_record_b = DnsRecord {
        fqdn: "b.example.com".to_string(),
        ip: "127.0.0.1".to_string(),
        ..Default::default()
    };
    dns_record_b.set_a_record(DOMAIN_NAME, PADDING);

    let mut dns_record_c = DnsRecord {
        fqdn: "c.example.com".to_string(),
        ip: "127.0.0.3".to_string(),
        ..Default::default()
    };
    dns_record_c.set_a_record(DOMAIN_NAME, PADDING);

    let mut dns_record_d = DnsRecord {
        fqdn: "d.example.com".to_string(),
        ip: "127.0.0.4".to_string(),
        ..Default::default()
    };
    dns_record_d.set_a_record(DOMAIN_NAME, PADDING);

    let mut dns_record_e = DnsRecord {
        fqdn: "e.example.com".to_string(),
        ip: "127.0.0.4".to_string(),
        ..Default::default()
    };
    dns_record_e.set_a_record(DOMAIN_NAME, PADDING);
    let mut dns_record_e_dup = DnsRecord {
        fqdn: "e.example.com".to_string(),
        ip: "127.0.0.4".to_string(),
        ..Default::default()
    };
    dns_record_e_dup.set_a_record(DOMAIN_NAME, PADDING);
    dns_record_e_dup.is_duplicate = true;

    vec![dns_record_b, dns_record_d, dns_record_a, dns_record_c, dns_record_e, dns_record_e_dup]
}

fn file(path: &str, content: Option<&str>) -> SourceFile {
    SourceFile { path: path.to_string(), content: content.map(|text| text.to_string()) }
}

const SOURCE_HOME_LAB: &str = "$ORIGIN home.lab.\n$TTL 3600\n@ IN SOA ns.home.lab. admin.home.lab. (1 7200 3600 1209600 3600)\n@ IN NS ns.home.lab.\nns IN A 192.168.178.2\n";
const SOURCE_MANDARIN_COMPOSE: &str = "; docker compose services on mandarin\nportainer    IN A     192.168.178.123\ngrafana      IN A     192.168.178.123\n";

#[test]
fn test_merge_source_files() {
    let test_files = vec![
        file("examples/source.home.lab", Some(SOURCE_HOME_LAB)),
        file("examples/source.mandarin.compose", Some(SOURCE_MANDARIN_COMPOSE)),
    ];
    let result = merge_source_contents(&test_files);

    assert!(result.is_ok(), "Failed to merge source files: {:?}", result.err());

    let destination_content = result.unwrap();
    assert!(
        destination_content.contains("; Do not edit this file manually"),
        "Destination file content does not contain generated comment"
    );
    assert!(
        destination_content.contains("$ORIGIN home.lab."),
        "Destination file content does not contain content from source.home.lab"
    );
    assert!(
        destination_content.contains("portainer    IN A     192.168.178.123"),
        "Destination file content does not contain content from source.mandarin.compose"
    );
}

#[test]
fn test_write_dns_records_to_file_success() {
    let mut dns_records = generate_test_dns_records();
    let source_name = "test_source";

    let fragment = render_dns_records(&mut dns_records, source_name);
    assert_eq!(fragment.records_written, 6);
}

#[test]
fn test_write_dns_records_to_file_order() {
    let mut dns_records = generate_test_dns_records();
    let source_name = "test_source";

    let fragment = render_dns_records(&mut dns_records, source_name);

    let lines: Vec<_> = fragment.content.lines().map(String::from).collect();

    let expected_line_1 = "a     IN A 127.0.0.2";
    let expected_line_2 = "b     IN A 127.0.0.1";
    let expected_line_3 = "c     IN A 127.0.0.3";
    let expected_line_4 = "d     IN A 127.0.0.4";
    let expected_line_5 = "e     IN A 127.0.0.4";

    assert_eq!(lines[1], expected_line_1);
    assert_eq!(lines[2], expected_line_2);
    assert_eq!(lines[3], expected_line_3);
    assert_eq!(lines[4], expected_line_4);
    assert_eq!(lines[5], expected_line_5);
}

#[test]
fn test_write_dns_records_to_file_duplicates_are_commented_out() {
    let mut dns_records = generate_test_dns_records();
    let source_name = "test_source";

    let fragment = render_dns_records(&mut dns_records, source_name);

    let lines: Vec<_> = fragment.content.lines().map(String::from).collect();

    let expected_line_5 = "e     IN A 127.0.0.4";
    let expected_line_6 = "; e     IN A 127.0.0.4 - Duplicate";

    assert_eq!(lines[5], expected_line_5);
    assert_eq!(lines[6], expected_line_6);
}

#[test]
fn test_write_dns_records_to_file_empty_records() {
    let mut dns_records: Vec<DnsRecord> = Vec::new();
    let source_name = "test_source";

    let fragment = render_dns_records(&mut dns_records, source_name);
    assert_eq!(fragment.records_written, 0, "Expected 0 records to be written");

    let expected_line_one = "; Source: test_source\n";
    let expected_line_two = "; No DNS records found\n";

    let destination_content = fragment.content;
    assert!(
        destination_content.contains(expected_line_one),
        "Destination file content does not contain expected line one"
    );
    assert!(
        destination_content.contains(expected_line_two),
        "Destination file content does not contain expected line two"
    );
}

#[test]
fn fragment_of_the_test_records_is_exact() {
    let mut dns_records = generate_test_dns_records();
    let fragment = render_dns_records(&mut dns_records, "test_source");
    assert_eq!(
        fragment.content,
        "; Source: test_source\n\
         a     IN A 127.0.0.2\n\
         b     IN A 127.0.0.1\n\
         c     IN A 127.0.0.3\n\
         d     IN A 127.0.0.4\n\
         e     IN A 127.0.0.4\n\
         ; e     IN A 127.0.0.4 - Duplicate\n\
         \n"
    );
}

#[test]
fn empty_fragment_is_exact() {
    let mut dns_records: Vec<DnsRecord> = Vec::new();
    let fragment = render_dns_records(&mut dns_records, "cluster-a");
    assert_eq!(fragment.content, "; Source: cluster-a\n; No DNS records found\n\n");
    assert_eq!(fragment.records_written, 0);
    assert!(dns_records.is_empty());
}

#[test]
fn fragment_ends_with_a_blank_line() {
    let mut dns_records = generate_test_dns_records();
    let fragment = render_dns_records(&mut dns_records, "test_source");
    assert!(fragment.content.ends_with("\n\n"));
    assert!(!fragment.content.contains("; No DNS records found"));
}

#[test]
fn rendering_sorts_the_records_in_place() {
    let mut dns_records = generate_test_dns_records();
    render_dns_records(&mut dns_records, "test_source");
    let names: Vec<&str> = dns_records.iter().map(|record| record.fqdn.as_str()).collect();
    assert_eq!(
        names,
        vec![
            "a.example.com",
            "b.example.com",
            "c.example.com",
            "d.example.com",
            "e.example.com",
            "e.example.com"
        ]
    );
    assert!(!dns_records[4].is_duplicate);
    assert!(dns_records[5].is_duplicate);
}

#[test]
fn rendering_twice_gives_the_same_fragment() {
    let mut dns_records = generate_test_dns_records();
    let first = render_dns_records(&mut dns_records, "test_source");
    let second = render_dns_records(&mut dns_records, "test_source");
    assert_eq!(first, second);
}

#[test]
fn duplicate_that_comes_first_in_the_list_is_rendered_in_its_place() {
    let mut duplicate = DnsRecord {
        fqdn: "e.example.com".to_string(),
        ip: "127.0.0.4".to_string(),
        is_duplicate: true,
        ..Default::default()
    };
    duplicate.set_a_record(DOMAIN_NAME, PADDING);
    let mut first = DnsRecord {
        fqdn: "e.example.com".to_string(),
        ip: "127.0.0.5".to_string(),
        ..Default::default()
    };
    first.set_a_record(DOMAIN_NAME, PADDING);
    let mut dns_records = vec![duplicate, first];
    let fragment = render_dns_records(&mut dns_records, "s");
    assert_eq!(
        fragment.content,
        "; Source: s\n; e     IN A 127.0.0.4 - Duplicate\ne     IN A 127.0.0.5\n\n"
    );
    assert_eq!(fragment.records_written, 2);
}

#[test]
fn merged_text_is_exact() {
    let files = vec![
        file("/etc/coredns/static.zone", Some("$ORIGIN home.lab.\n@ IN NS ns\n")),
        file("/tmp/coredns/cluster-a.txt", Some("; Source: cluster-a\na     IN A 10.0.0.1\n\n")),
    ];
    assert_eq!(
        merge_source_contents(&files),
        Ok("; This file was generated by the coredns-k8s-sync module\n\
            ; Do not edit this file manually\n\
            ; Original Source\n\
            \n\
            ; Source File: /etc/coredns/static.zone\n\
            $ORIGIN home.lab.\n\
            @ IN NS ns\n\
            \n\
            \n\
            \n\
            ; Source File: /tmp/coredns/cluster-a.txt\n\
            ; Source: cluster-a\n\
            a     IN A 10.0.0.1\n\
            \n\
            \n\
            \n"
            .to_string())
    );
}

#[test]
fn merge_of_one_empty_file() {
    let files = vec![file("empty.zone", Some(""))];
    assert_eq!(
        merge_source_contents(&files),
        Ok("; This file was generated by the coredns-k8s-sync module\n; Do not edit this file manually\n; Original Source\n\n; Source File: empty.zone\n\n\n".to_string())
    );
}

#[test]
fn merge_keeps_the_order_of_the_files() {
    let forward = vec![file("one", Some("1\n")), file("two", Some("2\n"))];
    let backward = vec![file("two", Some("2\n")), file("one", Some("1\n"))];
    let forward_text = merge_source_contents(&forward).unwrap();
    let backward_text = merge_source_contents(&backward).unwrap();
    assert!(forward_text.find("; Source File: one").unwrap() < forward_text.find("; Source File: two").unwrap());
    assert!(backward_text.find("; Source File: two").unwrap() < backward_text.find("; Source File: one").unwrap());
    assert_ne!(forward_text, backward_text);
}

#[test]
fn merging_the_same_files_twice_gives_the_same_bytes() {
    let files = vec![
        file("examples/source.home.lab", Some(SOURCE_HOME_LAB)),
        file("examples/source.mandarin.compose", Some(SOURCE_MANDARIN_COMPOSE)),
    ];
    let again = vec![
        file("examples/source.home.lab", Some(SOURCE_HOME_LAB)),
        file("examples/source.mandarin.compose", Some(SOURCE_MANDARIN_COMPOSE)),
    ];
    let first = merge_source_contents(&files).unwrap();
    let second = merge_source_contents(&files).unwrap();
    let third = merge_source_contents(&again).unwrap();
    assert_eq!(first.as_bytes(), second.as_bytes());
    assert_eq!(first.as_bytes(), third.as_bytes());
}

#[test]
fn merge_of_no_files_is_refused() {
    assert_eq!(merge_source_contents(&Vec::new()), Err(MergeError::NoSourceFiles));
}

#[test]
fn missing_source_file_blocks_the_merge() {
    let files = vec![
        file("static.zone", Some("$ORIGIN home.lab.\n")),
        file("gone.txt", None),
        file("later.txt", Some("later\n")),
    ];
    assert_eq!(
        merge_source_contents(&files),
        Err(MergeError::SourceFileNotFound { path: "gone.txt".to_string() })
    );
}

#[test]
fn first_missing_source_file_is_reported() {
    let files = vec![file("first-gone", None), file("static.zone", Some("x")), file("second-gone", None)];
    assert_eq!(
        merge_source_contents(&files),
        Err(MergeError::SourceFileNotFound { path: "first-gone".to_string() })
    );
    let last = vec![file("static.zone", Some("x")), file("last-gone", None)];
    assert_eq!(
        merge_source_contents(&last),
        Err(MergeError::SourceFileNotFound { path: "last-gone".to_string() })
    );
}

#[test]
fn fragment_path_is_storage_path_name_and_extension() {
    assert_eq!(fragment_file_path("/tmp/coredns/", "cluster-a"), "/tmp/coredns/cluster-a.txt");
    assert_eq!(fragment_file_path("", "x"), "x.txt");
    assert_eq!(fragment_file_path("/tmp/coredns", "x"), "/tmp/corednsx.txt");
}

struct PerSourceFetcher;

impl DnsRecordFetcher for PerSourceFetcher {
    fn fetch_dns_records(
        &self,
        source: &ExternalSource,
        _trust_anchor: &[u8],
    ) -> Result<Vec<DnsRecord>, SourceFetchError> {
        match source.source_name.as_str() {
            "alpha" => Ok(vec![
                DnsRecord { fqdn: "web.alpha.lab".to_string(), ip: "10.1.0.2".to_string(), ..Default::default() },
                DnsRecord { fqdn: "db.alpha.lab".to_string(), ip: "10.1.0.1".to_string(), ..Default::default() },
            ]),
            "beta" => Err(SourceFetchError { message: "unreachable".to_string() }),
            "gamma" => Ok(Vec::new()),
            _ => Ok(vec![DnsRecord {
                fqdn: "db.alpha.lab".to_string(),
                ip: "10.9.0.1".to_string(),
                ..Default::default()
            }]),
        }
    }
}

fn source(name: &str, domain: &str) -> ExternalSource {
    ExternalSource {
        url: format!("https://{}.invalid", name),
        domain_name: domain.to_string(),
        source_name: name.to_string(),
    }
}

#[test]
fn fragments_follow_the_configured_order_and_skip_failed_sources() {
    let sources = vec![
        source("delta", "alpha.lab"),
        source("alpha", "alpha.lab"),
        source("beta", "beta.lab"),
        source("gamma", "gamma.lab"),
    ];
    let config = Config {
        external_sources: sources,
        temp_storage_path: "/tmp/coredns/".to_string(),
        ..Default::default()
    };
    let mut collector = DnsRecordCollector::new(config.clone(), Box::new(PerSourceFetcher));
    assert_eq!(collector.collect_dns_records(), Ok(()));
    let files = render_fragments(
        &config.external_sources,
        collector.get_dns_records_by_source(),
        &config.temp_storage_path,
    );
    assert_eq!(files.len(), 3);
    assert_eq!(files[0].path, "/tmp/coredns/delta.txt");
    assert_eq!(files[0].content, "; Source: delta\ndb     IN A 10.9.0.1\n\n");
    assert_eq!(files[0].records_written, 1);
    assert_eq!(files[1].path, "/tmp/coredns/alpha.txt");
    assert_eq!(
        files[1].content,
        "; Source: alpha\n; db      IN A 10.1.0.1 - Duplicate\nweb     IN A 10.1.0.2\n\n"
    );
    assert_eq!(files[1].records_written, 2);
    assert_eq!(files[2].path, "/tmp/coredns/gamma.txt");
    assert_eq!(files[2].content, "; Source: gamma\n; No DNS records found\n\n");
    assert_eq!(files[2].records_written, 0);
}

#[test]
fn source_name_configured_twice_gets_one_fragment() {
    let sources = vec![source("alpha", "alpha.lab"), source("gamma", "gamma.lab"), source("alpha", "alpha.lab")];
    let config = Config { external_sources: sources, ..Default::default() };
    let mut collector = DnsRecordCollector::new(config.clone(), Box::new(PerSourceFetcher));
    assert_eq!(collector.collect_dns_records(), Ok(()));
    let files = render_fragments(&config.external_sources, collector.get_dns_records_by_source(), "");
    let paths: Vec<&str> = files.iter().map(|file| file.path.as_str()).collect();
    assert_eq!(paths, vec!["alpha.txt", "gamma.txt"]);
    assert_eq!(
        files[0].content,
        "; Source: alpha\n; db      IN A 10.1.0.1 - Duplicate\n; web     IN A 10.1.0.2 - Duplicate\n\n"
    );
}

#[test]
fn fragments_of_a_collector_that_collected_nothing() {
    let config = Config { external_sources: vec![source("alpha", "alpha.lab")], ..Default::default() };
    let collector = DnsRecordCollector::new(config.clone(), Box::new(PerSourceFetcher));
    let files = render_fragments(&config.external_sources, collector.get_dns_records_by_source(), "/tmp/");
    assert!(files.is_empty());
}

#[test]
fn fragments_merge_behind_the_static_files() {
    let config = Config {
        external_sources: vec![source("gamma", "gamma.lab")],
        temp_storage_path: "/tmp/".to_string(),
        ..Default::default()
    };
    let mut collector = DnsRecordCollector::new(config.clone(), Box::new(PerSourceFetcher));
    assert_eq!(collector.collect_dns_records(), Ok(()));
    let fragments = render_fragments(
        &config.external_sources,
        collector.get_dns_records_by_source(),
        &config.temp_storage_path,
    );
    let mut files = vec![file("static.zone", Some("$ORIGIN gamma.lab.\n"))];
    for fragment in fragments {
        files.push(SourceFile { path: fragment.path, content: Some(fragment.content) });
    }
    assert_eq!(
        merge_source_contents(&files),
        Ok("; This file was generated by the coredns-k8s-sync module\n; Do not edit this file manually\n; Original Source\n\n; Source File: static.zone\n$ORIGIN gamma.lab.\n\n\n\n; Source File: /tmp/gamma.txt\n; Source: gamma\n; No DNS records found\n\n\n\n".to_string())
    );
}
