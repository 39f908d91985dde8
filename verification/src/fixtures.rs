//! Fixture data: YAML and JSON documents at three sizes (small, medium, large), for
//! throughput measurements across the pipeline.
use crate::text::push_decimal;
use vstd::prelude::*;
use vstd::string::*;

verus! {

/// Minimal Kubernetes pod spec exercising plain scalars, mappings, and sequences.
pub const SMALL_POD: &'static str = "\
apiVersion: v1
kind: Pod
metadata:
  name: nginx
  labels:
    app: web
    tier: frontend
spec:
  containers:
    - name: nginx
      image: nginx:1.27
      ports:
        - containerPort: 80
          protocol: TCP
";

/// JSON equivalent of [`SMALL_POD`].
pub const SMALL_POD_JSON: &'static str = r#"{
  "apiVersion": "v1",
  "kind": "Pod",
  "metadata": {
    "name": "nginx",
    "labels": {
      "app": "web",
      "tier": "frontend"
    }
  },
  "spec": {
    "containers": [
      {
        "name": "nginx",
        "image": "nginx:1.27",
        "ports": [
          {
            "containerPort": 80,
            "protocol": "TCP"
          }
        ]
      }
    ]
  }
}"#;

// ─── Medium: Helm Values (~5KB) ─────────────────────────────────────

/// Realistic Helm values.yaml exercising nested maps, flow sequences,
/// block scalars, quoted strings, comments, and anchors/aliases.
pub const MEDIUM_HELM: &'static str = "\
# Application configuration
replicaCount: 3

image:
  repository: registry.example.com/app
  tag: \"2.4.1\"
  pullPolicy: IfNotPresent

nameOverride: \"\"
fullnameOverride: my-application

serviceAccount:
  create: true
  annotations:
    eks.amazonaws.com/role-arn: \"arn:aws:iam::123456789012:role/app-role\"
  name: app-sa

podAnnotations:
  prometheus.io/scrape: \"true\"
  prometheus.io/port: \"9090\"

podSecurityContext:
  runAsNonRoot: true
  runAsUser: 1000
  fsGroup: 2000

securityContext:
  allowPrivilegeEscalation: false
  readOnlyRootFilesystem: true
  capabilities:
    drop: [ALL]

service:
  type: ClusterIP
  port: 80
  targetPort: 8080
  annotations: {}

ingress:
  enabled: true
  className: nginx
  annotations:
    nginx.ingress.kubernetes.io/rewrite-target: /
    cert-manager.io/cluster-issuer: letsencrypt-prod
  hosts:
    - host: app.example.com
      paths:
        - path: /
          pathType: Prefix
        - path: /api
          pathType: Prefix
    - host: api.example.com
      paths:
        - path: /
          pathType: Prefix
  tls:
    - secretName: app-tls
      hosts: [app.example.com, api.example.com]

resources: &default_resources
  limits:
    cpu: 500m
    memory: 512Mi
  requests:
    cpu: 100m
    memory: 128Mi

autoscaling:
  enabled: true
  minReplicas: 2
  maxReplicas: 10
  targetCPUUtilizationPercentage: 75
  targetMemoryUtilizationPercentage: 80

nodeSelector:
  kubernetes.io/os: linux
  node.kubernetes.io/instance-type: m5.large

tolerations:
  - key: dedicated
    operator: Equal
    value: app
    effect: NoSchedule

affinity:
  podAntiAffinity:
    preferredDuringSchedulingIgnoredDuringExecution:
      - weight: 100
        podAffinityTerm:
          labelSelector:
            matchExpressions:
              - key: app
                operator: In
                values: [web, api]
          topologyKey: kubernetes.io/hostname

env:
  - name: DATABASE_URL
    valueFrom:
      secretKeyRef:
        name: db-credentials
        key: url
  - name: LOG_LEVEL
    value: info
  - name: CACHE_TTL
    value: \"3600\"
  - name: FEATURES
    value: \"auth,metrics,tracing\"

configMap:
  data:
    application.yaml: |
      server:
        port: 8080
        shutdown-timeout: 30s
      logging:
        level: INFO
        format: json
      database:
        pool:
          min-idle: 5
          max-size: 20
          timeout: 10s
      cache:
        type: redis
        ttl: 3600
    nginx.conf: |
      upstream backend {
        server 127.0.0.1:8080;
        keepalive 32;
      }
      server {
        listen 80;
        location / {
          proxy_pass http://backend;
          proxy_set_header Host $host;
          proxy_set_header X-Real-IP $remote_addr;
        }
      }

sidecars:
  - name: log-collector
    image: fluent/fluent-bit:2.2
    resources: *default_resources
    volumeMounts:
      - name: logs
        mountPath: /var/log/app

volumes:
  - name: logs
    emptyDir: {}
  - name: config
    configMap:
      name: app-config

livenessProbe:
  httpGet:
    path: /healthz
    port: 8080
  initialDelaySeconds: 15
  periodSeconds: 10
  failureThreshold: 3

readinessProbe:
  httpGet:
    path: /readyz
    port: 8080
  initialDelaySeconds: 5
  periodSeconds: 5

metrics:
  enabled: true
  serviceMonitor:
    enabled: true
    interval: 30s
    labels:
      release: prometheus
";

/// JSON equivalent of [`MEDIUM_HELM`].
pub const MEDIUM_HELM_JSON: &'static str = r#"{
  "replicaCount": 3,
  "image": {
    "repository": "registry.example.com/app",
    "tag": "2.4.1",
    "pullPolicy": "IfNotPresent"
  },
  "nameOverride": "",
  "fullnameOverride": "my-application",
  "serviceAccount": {
    "create": true,
    "annotations": {
      "eks.amazonaws.com/role-arn": "arn:aws:iam::123456789012:role/app-role"
    },
    "name": "app-sa"
  },
  "podAnnotations": {
    "prometheus.io/scrape": "true",
    "prometheus.io/port": "9090"
  },
  "podSecurityContext": {
    "runAsNonRoot": true,
    "runAsUser": 1000,
    "fsGroup": 2000
  },
  "securityContext": {
    "allowPrivilegeEscalation": false,
    "readOnlyRootFilesystem": true,
    "capabilities": {
      "drop": ["ALL"]
    }
  },
  "service": {
    "type": "ClusterIP",
    "port": 80,
    "targetPort": 8080,
    "annotations": {}
  },
  "ingress": {
    "enabled": true,
    "className": "nginx",
    "annotations": {
      "nginx.ingress.kubernetes.io/rewrite-target": "/",
      "cert-manager.io/cluster-issuer": "letsencrypt-prod"
    },
    "hosts": [
      {
        "host": "app.example.com",
        "paths": [
          {"path": "/", "pathType": "Prefix"},
          {"path": "/api", "pathType": "Prefix"}
        ]
      },
      {
        "host": "api.example.com",
        "paths": [
          {"path": "/", "pathType": "Prefix"}
        ]
      }
    ],
    "tls": [
      {
        "secretName": "app-tls",
        "hosts": ["app.example.com", "api.example.com"]
      }
    ]
  },
  "resources": {
    "limits": {"cpu": "500m", "memory": "512Mi"},
    "requests": {"cpu": "100m", "memory": "128Mi"}
  },
  "autoscaling": {
    "enabled": true,
    "minReplicas": 2,
    "maxReplicas": 10,
    "targetCPUUtilizationPercentage": 75,
    "targetMemoryUtilizationPercentage": 80
  },
  "nodeSelector": {
    "kubernetes.io/os": "linux",
    "node.kubernetes.io/instance-type": "m5.large"
  },
  "tolerations": [
    {
      "key": "dedicated",
      "operator": "Equal",
      "value": "app",
      "effect": "NoSchedule"
    }
  ],
  "affinity": {
    "podAntiAffinity": {
      "preferredDuringSchedulingIgnoredDuringExecution": [
        {
          "weight": 100,
          "podAffinityTerm": {
            "labelSelector": {
              "matchExpressions": [
                {
                  "key": "app",
                  "operator": "In",
                  "values": ["web", "api"]
                }
              ]
            },
            "topologyKey": "kubernetes.io/hostname"
          }
        }
      ]
    }
  },
  "env": [
    {"name": "DATABASE_URL", "valueFrom": {"secretKeyRef": {"name": "db-credentials", "key": "url"}}},
    {"name": "LOG_LEVEL", "value": "info"},
    {"name": "CACHE_TTL", "value": "3600"},
    {"name": "FEATURES", "value": "auth,metrics,tracing"}
  ],
  "configMap": {
    "data": {
      "application.yaml": "server:\n  port: 8080\n  shutdown-timeout: 30s\nlogging:\n  level: INFO\n  format: json\ndatabase:\n  pool:\n    min-idle: 5\n    max-size: 20\n    timeout: 10s\ncache:\n  type: redis\n  ttl: 3600\n",
      "nginx.conf": "upstream backend {\n  server 127.0.0.1:8080;\n  keepalive 32;\n}\nserver {\n  listen 80;\n  location / {\n    proxy_pass http://backend;\n    proxy_set_header Host $host;\n    proxy_set_header X-Real-IP $remote_addr;\n  }\n}\n"
    }
  },
  "sidecars": [
    {
      "name": "log-collector",
      "image": "fluent/fluent-bit:2.2",
      "resources": {
        "limits": {"cpu": "500m", "memory": "512Mi"},
        "requests": {"cpu": "100m", "memory": "128Mi"}
      },
      "volumeMounts": [
        {"name": "logs", "mountPath": "/var/log/app"}
      ]
    }
  ],
  "volumes": [
    {"name": "logs", "emptyDir": {}},
    {"name": "config", "configMap": {"name": "app-config"}}
  ],
  "livenessProbe": {
    "httpGet": {"path": "/healthz", "port": 8080},
    "initialDelaySeconds": 15,
    "periodSeconds": 10,
    "failureThreshold": 3
  },
  "readinessProbe": {
    "httpGet": {"path": "/readyz", "port": 8080},
    "initialDelaySeconds": 5,
    "periodSeconds": 5
  },
  "metrics": {
    "enabled": true,
    "serviceMonitor": {
      "enabled": true,
      "interval": "30s",
      "labels": {
        "release": "prometheus"
      }
    }
  }
}"#;

/// A text for a truth value.
pub open spec fn truth(b: bool) -> Seq<char> {
    if b {
        "true"@
    } else {
        "false"@
    }
}

/// Hundredths as a decimal number with two places.
pub open spec fn hundredths(n: nat) -> Seq<char> {
    crate::text::decimal(n / 100) + "."@ + crate::text::decimal(n / 10 % 10)
        + crate::text::decimal(n % 10)
}

/// The `i`th entry of the large YAML document.
pub open spec fn entry(i: nat) -> Seq<char> {
    "  - id: "@ + crate::text::decimal(i) + "\n    name: \"entry-"@ + crate::text::decimal(i)
        + "\"\n    score: "@ + hundredths(37 * i) + "\n    active: "@ + truth(i % 2 == 0)
        + "\n    tags: [alpha, bravo, charlie]\n    meta:\n      region: us-east-"@
        + crate::text::decimal(i % 4 + 1) + "\n      weight: "@ + crate::text::decimal(10 * i + 5)
        + "\n"@
}

/// The first `n` entries of the large YAML document.
pub open spec fn entries(n: nat) -> Seq<char>
    decreases n,
{
    if n == 0 {
        seq![]
    } else {
        entries((n - 1) as nat) + entry((n - 1) as nat)
    }
}

/// The `i`th entry of the large JSON document.
pub open spec fn entry_json(i: nat) -> Seq<char> {
    "{\"id\":"@ + crate::text::decimal(i) + ",\"name\":\"entry-"@ + crate::text::decimal(i)
        + "\",\"score\":"@ + hundredths(37 * i) + ",\"active\":"@ + truth(i % 2 == 0)
        + ",\"tags\":[\"alpha\",\"bravo\",\"charlie\"],\"meta\":{\"region\":\"us-east-"@
        + crate::text::decimal(i % 4 + 1) + "\",\"weight\":"@ + crate::text::decimal(10 * i + 5)
        + "}}"@
}

/// The first `n` entries of the large JSON document, with commas between them.
pub open spec fn entries_json(n: nat) -> Seq<char>
    decreases n,
{
    if n == 0 {
        seq![]
    } else {
        entries_json((n - 1) as nat) + (if n > 1 {
            ","@
        } else {
            ""@
        }) + entry_json((n - 1) as nat)
    }
}

/// Appends hundredths as a decimal number with two places.
fn push_hundredths(out: &mut String, n: u64)
    ensures
        final(out)@ == old(out)@ + hundredths(n as nat),
{
    push_decimal(out, n / 100);
    out.append(".");
    push_decimal(out, n / 10 % 10);
    push_decimal(out, n % 10);
    assert(out@ =~= old(out)@ + hundredths(n as nat));
}

/// Appends a truth value.
fn push_truth(out: &mut String, b: bool)
    ensures
        final(out)@ == old(out)@ + truth(b),
{
    if b {
        out.append("true");
    } else {
        out.append("false");
    }
}

/// Appends the `i`th entry of the large YAML document.
fn push_entry(out: &mut String, i: u64)
    requires
        37 * i <= u64::MAX,
    ensures
        final(out)@ == old(out)@ + entry(i as nat),
{
    out.append("  - id: ");
    push_decimal(out, i);
    out.append("\n    name: \"entry-");
    push_decimal(out, i);
    out.append("\"\n    score: ");
    push_hundredths(out, 37 * i);
    out.append("\n    active: ");
    push_truth(out, i % 2 == 0);
    out.append("\n    tags: [alpha, bravo, charlie]\n    meta:\n      region: us-east-");
    push_decimal(out, i % 4 + 1);
    out.append("\n      weight: ");
    push_decimal(out, 10 * i + 5);
    out.append("\n");
    assert(out@ =~= old(out)@ + entry(i as nat));
}

/// Appends the `i`th entry of the large JSON document.
fn push_entry_json(out: &mut String, i: u64)
    requires
        37 * i <= u64::MAX,
    ensures
        final(out)@ == old(out)@ + entry_json(i as nat),
{
    out.append("{\"id\":");
    push_decimal(out, i);
    out.append(",\"name\":\"entry-");
    push_decimal(out, i);
    out.append("\",\"score\":");
    push_hundredths(out, 37 * i);
    out.append(",\"active\":");
    push_truth(out, i % 2 == 0);
    out.append(",\"tags\":[\"alpha\",\"bravo\",\"charlie\"],\"meta\":{\"region\":\"us-east-");
    push_decimal(out, i % 4 + 1);
    out.append("\",\"weight\":");
    push_decimal(out, 10 * i + 5);
    out.append("}}");
    assert(out@ =~= old(out)@ + entry_json(i as nat));
}

/// Generates a large YAML document with `n` entries.
///
/// Each entry is a mapping with string, integer, float, boolean, sequence,
/// and nested mapping fields — roughly 125 bytes per entry.
/// `generate_large(800)` produces ~100KB.
pub fn generate_large(n: usize) -> (r: String)
    requires
        37 * n <= u64::MAX,
    ensures
        r@ == "entries:\n"@ + entries(n as nat),
{
    let mut out = "entries:\n".to_owned();
    let ghost start = out@;
    let mut i: usize = 0;
    assert(start + entries(0) =~= start);
    while i < n
        invariant
            i <= n,
            37 * n <= u64::MAX,
            out@ == start + entries(i as nat),
        decreases n - i,
    {
        push_entry(&mut out, i as u64);
        i += 1;
        assert(out@ =~= start + entries(i as nat));
    }
    out
}

/// Generates the JSON equivalent of [`generate_large`].
pub fn generate_large_json(n: usize) -> (r: String)
    requires
        37 * n <= u64::MAX,
    ensures
        r@ == "{\"entries\":["@ + entries_json(n as nat) + "]}"@,
{
    let mut out = "{\"entries\":[".to_owned();
    let ghost start = out@;
    let mut i: usize = 0;
    proof {
        reveal_strlit("");
        assert(start + entries_json(0) =~= start);
    }
    while i < n
        invariant
            i <= n,
            37 * n <= u64::MAX,
            ""@.len() == 0,
            out@ == start + entries_json(i as nat),
        decreases n - i,
    {
        if i > 0 {
            out.append(",");
        }
        push_entry_json(&mut out, i as u64);
        i += 1;
        assert(out@ =~= start + entries_json(i as nat));
    }
    out.append("]}");
    out
}

} // verus!
