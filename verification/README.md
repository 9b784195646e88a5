# ppv2_auth

PrivateLink tenant identity as an IPv6 address, and allowlists over it, proved in
Verus.

A PROXY protocol v2 header says where a connection comes from and, through AWS
PrivateLink, which endpoint it came through. The library turns such a header into one
IPv6 address, so that rules over addresses can say who may connect:

| header says | address |
|---|---|
| a site owns it, by endpoint id | `<ula>:b1a:0:<site>:` + the client's IPv4 |
| a site owns it, by source prefix | `<ula>:b1a:0:<site>::` |
| several sites claim it | the same with site 0, the quarantine |
| an endpoint id that no site claims | `<ula>:1:` + `sha256(id)[..4]` + the client's IPv4 |
| no endpoint id, IPv4 | `<ula>:4::` + the client's IPv4 |
| no endpoint id, IPv6 | the client's own address |

Rules are written as sources -- addresses, prefixes, endpoint ids, `!site`, `@group`
-- and encoded the same way, so a rule and the header it is written for meet on the
same address.

## Layout

| module | holds |
|---|---|
| `text`, `order`, `prefix`, `ip` | strings, sorting, blocks of addresses, address texts |
| `ppv2` | the header parser |
| `cidr` | sets of addresses |
| `segments`, `labels`, `identity` | who owns a source, and the address of a header |
| `meeting` | rules and headers meet |
| `groups`, `graph`, `agg` | groups that refer to one another, and the cycles refused |
| `json`, `raw` | a config as written |
| `table`, `sni`, `config`, `validate` | the identity table, server names, configs, loading |
| `stats`, `tcp`, `udp` | counters, and the filters as steps from event to action |

`app/` is the program around it: the watcher and HTTP endpoint of the aggregator, and
the callbacks of the proxy's module host.

## What is proved

Each function states what it returns on every input, and Verus proves it. The
functions named `law_..` state what holds across functions, among them:

- an address text reads back as the address (`ip`)
- the bytes behind a header change nothing, and no start of a header asks for more
  than its limit (`ppv2`)
- a set holds exactly the addresses of its entries (`cidr`)
- what several sites claim belongs to the quarantine, whatever the order (`identity`)
- a rule admits the headers that carry its source, and reaches into no site that it
  does not name (`meeting`)
- a graph without cycles stays without (`groups`)
- an exact server name wins over wildcards, and longer wildcards over shorter (`sni`)
- a list admits what its members admit and nothing else; an empty one denies
  (`table`, `config`)
- configs with the same parts get the table that is held for these, whatever their
  rules, and a subscriber that has looked goes by what is published now (`config`)
- a refusal is final, nothing is admitted without a header, and enforcement admits only
  what is permitted (`tcp`)

## What is trusted

The calls that leave the library, each behind a function or declaration with a stated
contract: `sha2::Sha256::digest`, `serde_json::from_str`, and of std `String::push`,
`str::from_utf8`, `String::from_utf8_lossy`, `Arc::clone` and the debug format of
strings.
